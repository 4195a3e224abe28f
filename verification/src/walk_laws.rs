//! Laws on the operations of several tokens, for whatever tokens come: well-formed or not,
//! cut off by the end of the stream, or with a flaw among them.
use vstd::prelude::*;

use crate::chunk_laws;
use crate::error::ErrorView;
use crate::grammar;
use crate::model;
use crate::model::{ReaderState, ReaderView, Reply, Stage};
use crate::object;
use crate::place::Place;
use crate::reply_laws;
use crate::token;
use crate::token::TokenView;
use crate::value;

verus! {

/// From `v` to `w` just these tokens are used up.
pub open spec fn uses_up(v: ReaderView, w: ReaderView, tokens: Seq<TokenView>) -> bool {
    &&& value::comes(v, tokens)
    &&& w == value::dressed(value::after(v, tokens.len()), w.state, w.stage, w.preserve)
}

/// From `v` to `w` some tokens are used up, and the last of them is `last`.
pub open spec fn ends_with(v: ReaderView, w: ReaderView, last: TokenView) -> bool {
    exists|tokens: Seq<TokenView>| #[trigger]
        uses_up(v, w, tokens) && tokens.len() > 0 && tokens.last() == last
}

proof fn lemma_uses_nothing(v: ReaderView)
    ensures
        uses_up(v, v, Seq::empty()),
{
}

/// One token more before the others.
proof fn lemma_uses_first(v: ReaderView, w: ReaderView, token: TokenView, rest: Seq<TokenView>)
    requires
        model::next_token(v).0 == Reply::Ready(Some(token)),
        uses_up(model::next_token(v).1, w, rest),
    ensures
        uses_up(v, w, seq![token] + rest),
{
    value::lemma_comes_first(v, token, rest);
}

/// What other state, waiting operation or keeping the reader begins with makes no difference
/// to the tokens.
proof fn lemma_uses_dressed(
    v: ReaderView,
    w: ReaderView,
    tokens: Seq<TokenView>,
    state: ReaderState,
    stage: Stage,
    preserve: bool,
)
    requires
        uses_up(value::dressed(v, state, stage, preserve), w, tokens),
    ensures
        uses_up(v, w, tokens),
{
    value::lemma_dressed(v, tokens, state, stage, preserve);
}

/// Some tokens and then others.
proof fn lemma_uses_both(
    v: ReaderView,
    x: ReaderView,
    w: ReaderView,
    a: Seq<TokenView>,
    b: Seq<TokenView>,
)
    requires
        uses_up(v, x, a),
        uses_up(x, w, b),
    ensures
        uses_up(v, w, a + b),
{
    let bare = value::after(v, a.len());
    value::lemma_dressed(bare, b, x.state, x.stage, x.preserve);
    value::lemma_comes_parts(v, a, b);
}

/// So many commas.
pub open spec fn commas(n: nat) -> Seq<TokenView> {
    Seq::new(n, |k: int| TokenView::EndObjectOrListItem)
}

/// From `v` to `w` just `n` commas and then this token are used up.
pub open spec fn uses_commas_and(v: ReaderView, w: ReaderView, n: nat, last: TokenView) -> bool {
    uses_up(v, w, commas(n).push(last))
}

/// A key is read behind any number of commas. A closing brace there is the object's end;
/// any other token is refused, as is the end of the stream.
pub proof fn law_key_comes_behind_commas(v: ReaderView, n: nat)
    requires
        v.sound(),
        value::comes(v, commas(n)),
    ensures
        ({
            let x = value::after(v, n);
            let (next, w) = model::next_token(x);
            let outcome = model::read_key(v);
            &&& next matches Reply::Ready(Some(TokenView::Key(key))) ==> outcome == (
                Reply::Ready(Some(key)),
                w,
            )
            &&& next == Reply::Ready(Some(TokenView::EndObject)) ==> outcome == (
                Reply::Ready(None::<Seq<char>>),
                w,
            )
            &&& next matches Reply::Ready(found) ==> {
                ||| found matches Some(TokenView::Key(_))
                ||| found == Some(TokenView::EndObject)
                ||| found == Some(TokenView::EndObjectOrListItem)
                ||| reply_laws::refuses(x, outcome, "key or end of object"@)
            }
            &&& next !is Ready ==> reply_laws::hands_on(x, outcome)
        }),
    decreases n,
{
    model::lemma_next_token_shrinks(v);
    if n > 0 {
        let less = (n - 1) as nat;
        assert(commas(n)[0] == TokenView::EndObjectOrListItem);
        assert(commas(n).drop_first() =~= commas(less));
        law_key_comes_behind_commas(model::next_token(v).1, less);
    }
}

proof fn lemma_comma_more(v: ReaderView, w: ReaderView, n: nat, last: TokenView)
    requires
        model::next_token(v).0 == Reply::Ready(Some(TokenView::EndObjectOrListItem)),
        uses_commas_and(model::next_token(v).1, w, n, last),
    ensures
        uses_commas_and(v, w, n + 1, last),
{
    let comma = TokenView::EndObjectOrListItem;
    lemma_uses_first(v, w, comma, commas(n).push(last));
    assert(seq![comma] + commas(n).push(last) =~= commas(n + 1).push(last));
}

/// A key that is given was the last token used up, and that there is none is told only
/// where the closing brace was. Before it only commas were.
pub proof fn law_key_is_told_by_its_token(v: ReaderView)
    requires
        v.sound(),
    ensures
        model::read_key(v).0 matches Reply::Ready(Some(key)) ==> exists|n: nat|
            uses_commas_and(v, model::read_key(v).1, n, TokenView::Key(key)),
        model::read_key(v).0 matches Reply::Ready(None) ==> exists|n: nat|
            uses_commas_and(v, model::read_key(v).1, n, TokenView::EndObject),
    decreases v.input().len(),
{
    model::lemma_next_token_shrinks(v);
    let (next, x) = model::next_token(v);
    let (reply, w) = model::read_key(v);
    if next == Reply::Ready(Some(TokenView::EndObjectOrListItem)) {
        law_key_is_told_by_its_token(x);
        match reply {
            Reply::Ready(Some(key)) => {
                let n = choose|n: nat| uses_commas_and(x, w, n, TokenView::Key(key));
                lemma_comma_more(v, w, n, TokenView::Key(key));
            },
            Reply::Ready(None) => {
                let n = choose|n: nat| uses_commas_and(x, w, n, TokenView::EndObject);
                lemma_comma_more(v, w, n, TokenView::EndObject);
            },
            _ => {},
        }
    } else if let Reply::Ready(Some(token)) = next {
        lemma_no_comma(v, token);
        match reply {
            Reply::Ready(Some(key)) => {
                assert(uses_commas_and(v, w, 0, TokenView::Key(key)));
            },
            Reply::Ready(None) => {
                assert(uses_commas_and(v, w, 0, TokenView::EndObject));
            },
            _ => {},
        }
    }
}

proof fn lemma_no_comma(v: ReaderView, token: TokenView)
    requires
        model::next_token(v).0 == Reply::Ready(Some(token)),
    ensures
        uses_commas_and(v, model::next_token(v).1, 0, token),
{
    let x = model::next_token(v).1;
    lemma_uses_nothing(x);
    lemma_uses_first(v, x, token, Seq::empty());
    assert(seq![token] + Seq::<TokenView>::empty() =~= commas(0).push(token));
}

/// The tokens that come stay deeper than `floor`.
pub open spec fn stays_inside(v: ReaderView, inner: Seq<TokenView>, floor: int) -> bool {
    &&& v.depth > floor
    &&& value::comes(v, inner)
    &&& value::above(inner, v.depth, floor + 1)
}

/// The stream ended inside a value.
pub open spec fn cut_value(position: int) -> ErrorView {
    ErrorView::JsonError { error: "Unexpected EOF while skipping value"@, position }
}

proof fn lemma_skips_on(v: ReaderView, inner: Seq<TokenView>, floor: int)
    requires
        v.sound(),
        stays_inside(v, inner, floor),
    ensures
        ({
            let x = value::after(v, inner.len());
            &&& model::skip_rest(v, floor) == model::skip_rest(x, floor)
            &&& x.sound()
            &&& x.depth > floor
            &&& x.stage == v.stage
        }),
    decreases inner.len(),
{
    if inner.len() > 0 {
        value::lemma_one(v, inner[0]);
        lemma_skips_on(model::next_token(v).1, inner.drop_first(), floor);
    }
}

/// A skip that goes on, whatever came so far, ends with the bracket that closes the value.
/// The end of the stream before that is an error, a flaw is handed on, and so is that data
/// is needed.
pub proof fn law_skip_ends_with_the_closing_bracket(
    v: ReaderView,
    inner: Seq<TokenView>,
    floor: int,
)
    requires
        v.sound(),
        v.stage == (Stage::Skip { floor }),
        stays_inside(v, inner, floor),
    ensures
        ({
            let x = value::after(v, inner.len());
            let (next, w) = model::next_token(x);
            let outcome = model::skip_value(v);
            let idle = ReaderView { stage: Stage::Idle, ..w };
            &&& next is Ready && next->Ready_0 is Some && w.depth <= floor ==> outcome == (
                Reply::Ready(()),
                ReaderView { state: ReaderState::Object, ..idle },
            )
            &&& next matches Reply::Ready(None) ==> outcome == (
                Reply::<()>::Failed(cut_value(w.position)),
                idle,
            )
            &&& next matches Reply::Failed(error) ==> outcome == (
                Reply::<()>::Failed(error),
                idle,
            )
            &&& next is NeedData ==> outcome == (Reply::<()>::NeedData, w)
        }),
{
    lemma_skips_on(v, inner, floor);
    let x = value::after(v, inner.len());
    model::lemma_next_token_shrinks(x);
    let w = model::next_token(x).1;
    if w.depth <= floor {
        assert(model::skip_rest(w, floor) == (
            Reply::<()>::Ready(()),
            w.in_state(ReaderState::Object).idle(),
        ));
    }
}

/// A value is one token or stands in brackets. What is skipped is just that: a string, a
/// number, a boolean or null; or all up to where as many brackets are open as before. Any
/// other token is refused, and so is the end of the stream.
pub proof fn law_skipped_value_is_a_value(v: ReaderView)
    requires
        v.sound(),
        v.stage is Idle,
    ensures
        ({
            let (next, w) = model::next_token(v);
            let outcome = model::skip_value(v);
            &&& next matches Reply::Ready(Some(token)) ==> match token {
                TokenView::String(_)
                | TokenView::Number(_)
                | TokenView::Boolean(_)
                | TokenView::Null => outcome == (Reply::Ready(()), reply_laws::behind(v)),
                TokenView::StartObject | TokenView::StartArray => outcome == model::skip_value(
                    ReaderView { stage: Stage::Skip { floor: v.depth }, ..w },
                ),
                _ => outcome == (
                    Reply::<()>::Failed(
                        ErrorView::UnexpectedToken {
                            expected: "a value"@,
                            found: token::token_text(token),
                        },
                    ),
                    w,
                ),
            }
            &&& next matches Reply::Ready(None) ==> outcome == (
                Reply::<()>::Failed(cut_value(w.position)),
                w,
            )
            &&& next !is Ready ==> reply_laws::hands_on(v, outcome)
        }),
{
}

/// An object is skipped as the value that it is; what does not begin with its brace is
/// refused as in entering it.
pub proof fn law_skipped_object_is_an_object(v: ReaderView)
    requires
        v.sound(),
        v.may_skip(),
    ensures
        v.stage is Skip ==> model::skip_object(v) == model::skip_value(v),
        v.stage is Idle && model::next_token(v).0 == Reply::Ready(Some(TokenView::StartObject))
            ==> model::skip_object(v) == model::skip_value(
            ReaderView { stage: Stage::Skip { floor: v.depth }, ..reply_laws::behind(v) },
        ),
        v.stage is Idle && model::next_token(v).0 != Reply::Ready(Some(TokenView::StartObject))
            ==> model::skip_object(v) == model::start_object(v),
{
}

/// What brings the reader before the next key: entering the outermost object, or skipping
/// the value that was left.
pub open spec fn before_key(v: ReaderView) -> (Reply<()>, ReaderView) {
    match v.state {
        ReaderState::Start => model::start_object(v),
        ReaderState::Value => model::skip_value(v),
        ReaderState::Object => (Reply::Ready(()), v),
    }
}

/// The next entry is the next key: of the outermost object at the start, and behind the
/// value of the key before, if that was not read. An entry that is given is one whose value
/// comes next.
pub proof fn law_entry_is_the_next_key(v: ReaderView)
    ensures
        ({
            let (reached, x) = before_key(v);
            let (reply, w) = model::next_object_entry(v);
            let (key, y) = model::read_key(x);
            &&& reached is Ready ==> {
                &&& reply == key
                &&& w == (if reply matches Reply::Ready(Some(_)) {
                    ReaderView { state: ReaderState::Value, ..y }
                } else {
                    y
                })
            }
            &&& reached matches Reply::Failed(error) ==> reply == Reply::<
                Option<Seq<char>>,
            >::Failed(error) && w == x
            &&& reached is NeedData ==> reply is NeedData && w == x
        }),
{
}

/// A search for a key begins where the next key would be looked for.
pub proof fn law_search_begins_at_the_next_key(v: ReaderView, target: Seq<char>)
    requires
        v.may_enter(),
    ensures
        ({
            let (reached, x) = before_key(v);
            let outcome = model::skip_to_key(v, target);
            &&& reached is Ready ==> outcome == model::skip_to_key(
                ReaderView { stage: Stage::SkipToKey { floor: x.depth }, ..x },
                target,
            )
            &&& reached !is Ready ==> outcome == (reached, x)
        }),
{
}

/// None of the tokens is the key `target` at the depth `floor`, nor the brace that ends the
/// object there.
pub open spec fn passed_over(
    tokens: Seq<TokenView>,
    depth: int,
    target: Seq<char>,
    floor: int,
) -> bool
    decreases tokens.len(),
{
    tokens.len() > 0 ==> {
        let next = value::level(tokens.take(1), depth);
        &&& !(next == floor && tokens[0] == TokenView::Key(target))
        &&& !(next < floor && tokens[0] == TokenView::EndObject)
        &&& passed_over(tokens.drop_first(), next, target, floor)
    }
}

proof fn lemma_level_of_one(tokens: Seq<TokenView>, depth: int)
    requires
        tokens.len() > 0,
    ensures
        value::level(tokens.take(1), depth) == model::depth_after(depth, tokens[0]),
{
    value::lemma_level_first(tokens[0], Seq::empty(), depth, 0);
    assert(seq![tokens[0]] + Seq::<TokenView>::empty() =~= tokens.take(1));
}

proof fn lemma_seeks_on(
    v: ReaderView,
    tokens: Seq<TokenView>,
    target: Seq<char>,
    floor: int,
)
    requires
        v.sound(),
        value::comes(v, tokens),
        passed_over(tokens, v.depth, target, floor),
    ensures
        ({
            let x = value::after(v, tokens.len());
            &&& model::seek_key(v, target, floor) == model::seek_key(x, target, floor)
            &&& x.sound()
            &&& x.stage == v.stage
        }),
    decreases tokens.len(),
{
    if tokens.len() > 0 {
        value::lemma_one(v, tokens[0]);
        lemma_level_of_one(tokens, v.depth);
        lemma_seeks_on(model::next_token(v).1, tokens.drop_first(), target, floor);
    }
}

/// The object has no such key.
pub open spec fn missing_key(position: int) -> ErrorView {
    ErrorView::JsonError { error: "key not found"@, position }
}

/// A search that goes on, whatever it passed over so far, ends at the key that it is for, in
/// its own object. The end of that object is an error, and so is the end of the stream; a
/// flaw is handed on, and so is that data is needed.
pub proof fn law_search_ends_with_the_key(
    v: ReaderView,
    tokens: Seq<TokenView>,
    target: Seq<char>,
    floor: int,
)
    requires
        v.sound(),
        v.stage == (Stage::SkipToKey { floor }),
        value::comes(v, tokens),
        passed_over(tokens, v.depth, target, floor),
    ensures
        ({
            let x = value::after(v, tokens.len());
            let (next, w) = model::next_token(x);
            let outcome = model::skip_to_key(v, target);
            let idle = ReaderView { stage: Stage::Idle, ..w };
            &&& next == Reply::Ready(Some(TokenView::Key(target))) && w.depth == floor
                ==> outcome == (
                Reply::Ready(()),
                ReaderView { state: ReaderState::Value, ..idle },
            )
            &&& next == Reply::Ready(Some(TokenView::EndObject)) && w.depth < floor ==> outcome
                == (Reply::<()>::Failed(missing_key(w.position)), idle)
            &&& next matches Reply::Ready(None) ==> outcome == (
                Reply::<()>::Failed(missing_key(w.position)),
                idle,
            )
            &&& next matches Reply::Failed(error) ==> outcome == (
                Reply::<()>::Failed(error),
                idle,
            )
            &&& next is NeedData ==> outcome == (Reply::<()>::NeedData, w)
        }),
{
    lemma_seeks_on(v, tokens, target, floor);
    let x = value::after(v, tokens.len());
    model::lemma_next_token_shrinks(x);
}

/// From `v` to `w` only whole tokens are used up.
pub open spec fn uses_tokens(v: ReaderView, w: ReaderView) -> bool {
    exists|tokens: Seq<TokenView>| uses_up(v, w, tokens)
}

proof fn lemma_skip_uses_tokens(v: ReaderView, floor: int)
    requires
        v.sound(),
    ensures
        model::skip_rest(v, floor).0 is Ready ==> uses_tokens(v, model::skip_rest(v, floor).1),
    decreases v.input().len(),
{
    let w = model::skip_rest(v, floor).1;
    if v.depth <= floor {
        lemma_uses_nothing(v);
        assert(uses_up(v, w, Seq::empty()));
    } else {
        model::lemma_next_token_shrinks(v);
        if let Reply::Ready(Some(token)) = model::next_token(v).0 {
            let x = model::next_token(v).1;
            lemma_skip_uses_tokens(x, floor);
            if model::skip_rest(v, floor).0 is Ready {
                let rest = choose|rest: Seq<TokenView>| uses_up(x, w, rest);
                lemma_uses_first(v, w, token, rest);
            }
        }
    }
}

proof fn lemma_one_used(v: ReaderView, token: TokenView, state: ReaderState)
    requires
        model::next_token(v).0 == Reply::Ready(Some(token)),
    ensures
        uses_up(v, ReaderView { state, ..model::next_token(v).1 }, seq![token]),
{
    let x = model::next_token(v).1;
    let w = ReaderView { state, ..x };
    assert(uses_up(x, w, Seq::empty()));
    lemma_uses_first(v, w, token, Seq::empty());
    assert(seq![token] + Seq::<TokenView>::empty() =~= seq![token]);
}

/// A value that is skipped is whole tokens, and no part of the next one.
pub proof fn law_skip_uses_whole_tokens(v: ReaderView)
    requires
        v.sound(),
        v.may_skip(),
    ensures
        model::skip_value(v).0 is Ready ==> uses_tokens(v, model::skip_value(v).1),
{
    model::lemma_next_token_shrinks(v);
    let w = model::skip_value(v).1;
    match v.stage {
        Stage::Skip { floor } => {
            lemma_skip_uses_tokens(v, floor);
        },
        _ => {
            if let Reply::Ready(Some(token)) = model::next_token(v).0 {
                let x = model::next_token(v).1;
                let stage = Stage::Skip { floor: v.depth };
                lemma_one_used(v, token, ReaderState::Object);
                if token is StartObject || token is StartArray {
                    let y = x.in_stage(stage);
                    lemma_skip_uses_tokens(y, v.depth);
                    if model::skip_value(v).0 is Ready {
                        let rest = choose|rest: Seq<TokenView>| uses_up(y, w, rest);
                        assert(y == value::dressed(x, x.state, stage, x.preserve));
                        lemma_uses_dressed(x, w, rest, x.state, stage, x.preserve);
                        lemma_uses_first(v, w, token, rest);
                    }
                }
            }
        },
    }
}

/// An entry that is given was told by its key, which is the last token used up; that there
/// is none, by the object's closing brace alone.
pub proof fn law_entry_is_told_by_its_token(v: ReaderView)
    requires
        v.sound(),
        v.may_enter(),
    ensures
        model::next_object_entry(v).0 matches Reply::Ready(Some(key)) ==> ends_with(
            v,
            model::next_object_entry(v).1,
            TokenView::Key(key),
        ),
        model::next_object_entry(v).0 matches Reply::Ready(None) ==> ends_with(
            v,
            model::next_object_entry(v).1,
            TokenView::EndObject,
        ),
{
    let (reached, x) = before_key(v);
    let (reply, w) = model::next_object_entry(v);
    chunk_laws::lemma_reach_key_ready(v);
    model::lemma_next_token_shrinks(v);
    if reached is Ready {
        law_key_is_told_by_its_token(x);
        match v.state {
            ReaderState::Start => {
                lemma_one_used(v, TokenView::StartObject, ReaderState::Object);
            },
            ReaderState::Value => {
                law_skip_uses_whole_tokens(v);
            },
            ReaderState::Object => {
                lemma_uses_nothing(v);
            },
        }
        assert(uses_tokens(v, x));
        let front = choose|front: Seq<TokenView>| uses_up(v, x, front);
        let y = model::read_key(x).1;
        match reply {
            Reply::Ready(Some(key)) => {
                let n = choose|n: nat| uses_commas_and(x, y, n, TokenView::Key(key));
                lemma_last_of_both(v, x, y, w, front, n, TokenView::Key(key));
            },
            Reply::Ready(None) => {
                let n = choose|n: nat| uses_commas_and(x, y, n, TokenView::EndObject);
                lemma_last_of_both(v, x, y, w, front, n, TokenView::EndObject);
            },
            _ => {},
        }
    }
}

proof fn lemma_last_of_both(
    v: ReaderView,
    x: ReaderView,
    y: ReaderView,
    w: ReaderView,
    front: Seq<TokenView>,
    n: nat,
    last: TokenView,
)
    requires
        uses_up(v, x, front),
        uses_commas_and(x, y, n, last),
        w == value::dressed(y, w.state, w.stage, w.preserve),
    ensures
        ends_with(v, w, last),
{
    let back = commas(n).push(last);
    assert(uses_up(x, w, back));
    lemma_uses_both(v, x, w, front, back);
    assert((front + back).last() == last);
}

/// That an array has no further item is told by its closing bracket alone, which is the last
/// token used up; that it has one, by its comma, or by the bracket that opened it.
pub proof fn law_item_is_told_by_its_token(v: ReaderView)
    requires
        v.sound(),
        v.stage is Idle,
    ensures
        model::start_array_item(v).0 == Reply::Ready(false) ==> ends_with(
            v,
            model::start_array_item(v).1,
            TokenView::EndArray,
        ),
        model::start_array_item(v).0 == Reply::Ready(true) ==> {
            let next = model::next_token(v).0;
            ||| next == Reply::Ready(Some(TokenView::EndObjectOrListItem))
            ||| next == Reply::Ready(Some(TokenView::StartArray))
        },
{
    model::lemma_next_token_shrinks(v);
    let (reply, w) = model::start_array_item(v);
    let x = model::next_token(v).1;
    if model::next_token(v).0 == Reply::Ready(Some(TokenView::StartArray)) {
        reply_laws::law_opened_array_has_an_item_or_ends(v);
        reply_laws::law_look_is_the_next_token(x);
        if reply == Reply::Ready(false) {
            lemma_bracket_needs_no_end(x);
            lemma_one_used(x, TokenView::EndArray, ReaderState::Object);
            lemma_uses_first(v, w, TokenView::StartArray, seq![TokenView::EndArray]);
            let both = seq![TokenView::StartArray] + seq![TokenView::EndArray];
            assert(both.last() == TokenView::EndArray);
        }
    } else if reply == Reply::Ready(false) {
        lemma_one_used(v, TokenView::EndArray, ReaderState::Object);
        assert(seq![TokenView::EndArray].last() == TokenView::EndArray);
    }
}

/// A closing bracket is found without the end of the stream.
proof fn lemma_bracket_needs_no_end(v: ReaderView)
    requires
        v.sound(),
        v.at_rest(),
        model::next_token(v).0 == Reply::Ready(Some(TokenView::EndArray)),
    ensures
        model::next_token(v).1.ended == v.ended,
{
    reveal(model::next_token);
    Place::Start.lemma_punctuation(v.input(), 0, v.depth);
    let look = model::begin_peek(v, true);
    model::lemma_holds_nothing(look);
    assert(look.input() == v.input());
    let len = grammar::lex(v.input(), v.depth)->Token_len;
    chunk_laws::lemma_found_beyond_seen(v);
    chunk_laws::lemma_peek_restores(look, len);
    let back = model::end_peek(look.past(len), v.position, v.preserve);
    assert(back.input().len() == v.input().len());
}

/// The reader that has done with an object: before a key or the end of the object around it,
/// and without keeping what is used up.
pub open spec fn done_with_object(w: ReaderView) -> ReaderView {
    ReaderView { state: ReaderState::Object, preserve: false, stage: Stage::Idle, ..w }
}

/// Reading an object whole begins with keeping what is used up from there on.
pub proof fn law_object_is_kept_from_its_start(v: ReaderView)
    requires
        v.at_rest(),
    ensures
        model::deserialize_object(v) == model::deserialize_object(
            ReaderView {
                preserve: true,
                stage: Stage::Deserialize { floor: v.depth, start: v.position, opened: false },
                ..v
            },
        ),
{
}

/// An object that is read whole begins with its brace. Any other token is refused, as is the
/// end of the stream, and nothing more is kept.
pub proof fn law_whole_object_needs_a_brace(v: ReaderView, floor: int, start: int)
    requires
        v.stage == (Stage::Deserialize { floor, start, opened: false }),
    ensures
        ({
            let (next, w) = model::next_token(v);
            let (reply, x) = model::deserialize_object(v);
            let given_up = ReaderView { preserve: false, stage: Stage::Idle, ..w };
            &&& next == Reply::Ready(Some(TokenView::StartObject)) ==> (reply, x)
                == model::deserialize_object(
                ReaderView {
                    stage: Stage::Deserialize { floor, start, opened: true },
                    ..reply_laws::behind(v)
                },
            )
            &&& next matches Reply::Ready(found) ==> found == Some(TokenView::StartObject) || {
                &&& reply_laws::fails_with(
                    reply,
                    ErrorView::UnexpectedToken {
                        expected: "{"@,
                        found: token::found_text(found),
                    },
                )
                &&& x == given_up
            }
            &&& next matches Reply::Failed(error) ==> {
                &&& reply_laws::fails_with(reply, error)
                &&& x == given_up
            }
            &&& next is NeedData ==> reply is NeedData && x == w
        }),
{
}

proof fn lemma_gathers_on(v: ReaderView, inner: Seq<TokenView>, floor: int, start: int)
    requires
        v.sound(),
        stays_inside(v, inner, floor),
    ensures
        ({
            let x = value::after(v, inner.len());
            &&& model::gather(v, floor, start) == model::gather(x, floor, start)
            &&& x.sound()
            &&& x.depth > floor
            &&& x.buffer == v.buffer
        }),
    decreases inner.len(),
{
    if inner.len() > 0 {
        value::lemma_one(v, inner[0]);
        lemma_gathers_on(model::next_token(v).1, inner.drop_first(), floor, start);
    }
}

/// An object that is being read whole, whatever came of it so far, ends with the bracket that
/// closes it: then just its bytes, from the start on, are what the parser is given, and what
/// the parser makes of them is the reply. Where the stream ends before that, the object is
/// refused whatever the parser would make of it; a flaw is handed on, and so is that data
/// is needed.
pub proof fn law_whole_object_ends_with_the_closing_bracket(
    v: ReaderView,
    inner: Seq<TokenView>,
    floor: int,
    start: int,
)
    requires
        v.sound(),
        v.stage == (Stage::Deserialize { floor, start, opened: true }),
        stays_inside(v, inner, floor),
    ensures
        ({
            let (next, w) = model::next_token(value::after(v, inner.len()));
            let (reply, x) = model::deserialize_object(v);
            let parsed = object::parsed_object(v.buffer.subrange(start, w.position));
            let closed = next is Ready && next->Ready_0 is Some && w.depth <= floor;
            let cut = next is Ready && next->Ready_0 is None;
            &&& closed || cut ==> x == done_with_object(w)
            &&& closed && parsed is Ok ==> reply == Reply::Ready(parsed->Ok_0)
            &&& cut && parsed is Ok ==> reply_laws::fails_with(
                    reply,
                ErrorView::JsonError {
                    error: "Unexpected EOF while reading object"@,
                    position: w.position,
                },
            )
            &&& (closed || cut) && parsed is Err ==> reply_laws::fails_with(
                    reply,
                ErrorView::JsonError {
                    error: "deserialize_object error: "@ + object::object_complaint(
                        parsed->Err_0,
                    ),
                    position: start,
                },
            )
            &&& next matches Reply::Failed(error) ==> {
                &&& reply_laws::fails_with(reply, error)
                &&& x == ReaderView { preserve: false, stage: Stage::Idle, ..w }
            }
            &&& next is NeedData ==> reply is NeedData && x == w
        }),
{
    lemma_gathers_on(v, inner, floor, start);
    let x = value::after(v, inner.len());
    model::lemma_next_token_shrinks(x);
    let w = model::next_token(x).1;
    if w.depth <= floor {
        assert(model::gather(w, floor, start) == model::parse_gathered(w, start));
    }
}

} // verus!
