//! JSON values as trees, and the tokens that stand for them.
use vstd::prelude::*;

use crate::model;
use crate::model::{ReaderState, ReaderView, Reply, Stage};
use crate::token::TokenView;

verus! {

/// A well-formed JSON value.
pub enum Json {
    Null,
    Boolean(bool),
    Number(Seq<char>),
    String(Seq<char>),
    Array(Seq<Json>),
    Object(Seq<Member>),
}

/// A member of an object.
pub struct Member {
    pub key: Seq<char>,
    pub value: Json,
}

/// The tokens of a value.
pub open spec fn tokens_of(json: Json) -> Seq<TokenView>
    decreases json, 0int,
{
    match json {
        Json::Null => seq![TokenView::Null],
        Json::Boolean(b) => seq![TokenView::Boolean(b)],
        Json::Number(text) => seq![TokenView::Number(text)],
        Json::String(text) => seq![TokenView::String(text)],
        Json::Array(items) => seq![TokenView::StartArray] + item_tokens(items) + seq![
            TokenView::EndArray,
        ],
        Json::Object(members) => seq![TokenView::StartObject] + member_tokens(members) + seq![
            TokenView::EndObject,
        ],
    }
}

/// The tokens of an array's items, with a comma between any two.
pub open spec fn item_tokens(items: Seq<Json>) -> Seq<TokenView>
    decreases items, 0int,
{
    if items.len() == 0 {
        Seq::empty()
    } else {
        tokens_of(items[0]) + more_items(items.drop_first())
    }
}

/// The tokens of the items after one: each has a comma before it.
pub open spec fn more_items(items: Seq<Json>) -> Seq<TokenView>
    decreases items, 1int,
{
    if items.len() == 0 {
        Seq::empty()
    } else {
        seq![TokenView::EndObjectOrListItem] + item_tokens(items)
    }
}

/// The tokens of an object's members, with a comma between any two.
pub open spec fn member_tokens(members: Seq<Member>) -> Seq<TokenView>
    decreases members, 0int,
{
    if members.len() == 0 {
        Seq::empty()
    } else {
        seq![TokenView::Key(members[0].key)] + tokens_of(members[0].value) + more_members(
            members.drop_first(),
        )
    }
}

/// The tokens of the members after one: each has a comma before it.
pub open spec fn more_members(members: Seq<Member>) -> Seq<TokenView>
    decreases members, 1int,
{
    if members.len() == 0 {
        Seq::empty()
    } else {
        seq![TokenView::EndObjectOrListItem] + member_tokens(members)
    }
}

/// The tokens are those of one well-formed value.
pub open spec fn value(tokens: Seq<TokenView>) -> bool {
    exists|json: Json| tokens_of(json) == tokens
}

/// The tokens are those of one well-formed object.
pub open spec fn object(tokens: Seq<TokenView>) -> bool {
    exists|members: Seq<Member>| tokens_of(Json::Object(members)) == tokens
}

/// What stands between an object's opening brace and its end.
pub open spec fn body(members: Seq<Member>) -> Seq<TokenView> {
    member_tokens(members) + seq![TokenView::EndObject]
}

/// A comma where a member follows.
pub open spec fn comma_before(more: bool) -> Seq<TokenView> {
    if more {
        seq![TokenView::EndObjectOrListItem]
    } else {
        Seq::empty()
    }
}

/// What the reader may have before the next member of an object: the opening brace at the
/// start, a value that was left, or nothing; and a comma between two members.
pub open spec fn leads(state: ReaderState, lead: Seq<TokenView>, more: bool) -> bool {
    match state {
        ReaderState::Start => lead == seq![TokenView::StartObject],
        ReaderState::Object => lead == Seq::<TokenView>::empty() || lead == comma_before(more),
        ReaderState::Value => exists|left: Seq<TokenView>| #[trigger]
            value(left) && lead == left + comma_before(more),
    }
}

/// The reader stands before these members of an object, with `lead` between.
pub open spec fn stands_before(v: ReaderView, lead: Seq<TokenView>, members: Seq<Member>) -> bool {
    leads(v.state, lead, members.len() > 0) && comes(v, lead + body(members))
}

/// The next tokens, in this order.
pub open spec fn comes(v: ReaderView, tokens: Seq<TokenView>) -> bool
    decreases tokens.len(),
{
    tokens.len() > 0 ==> {
        &&& model::next_token(v).0 == Reply::Ready(Some(tokens[0]))
        &&& comes(model::next_token(v).1, tokens.drop_first())
    }
}

/// The reader after `n` tokens.
pub open spec fn after(v: ReaderView, n: nat) -> ReaderView
    decreases n,
{
    if n == 0 {
        v
    } else {
        after(model::next_token(v).1, (n - 1) as nat)
    }
}

/// The reader with the input and the depth of `v`, but another state, another operation
/// waiting, and its buffer kept or not.
pub open spec fn dressed(
    v: ReaderView,
    state: ReaderState,
    stage: Stage,
    preserve: bool,
) -> ReaderView {
    ReaderView { state, stage, preserve, ..v }
}

/// State, waiting operation and buffer keeping have no part in the next token.
pub proof fn lemma_dressed_token(v: ReaderView, state: ReaderState, stage: Stage, preserve: bool)
    ensures
        model::next_token(dressed(v, state, stage, preserve)).0 == model::next_token(v).0,
        model::next_token(dressed(v, state, stage, preserve)).1 == dressed(
            model::next_token(v).1,
            state,
            stage,
            preserve,
        ),
{
    reveal(model::next_token);
    assert(dressed(v, state, stage, preserve).input() == v.input());
}

/// Nor in the tokens after it.
pub proof fn lemma_dressed(
    v: ReaderView,
    tokens: Seq<TokenView>,
    state: ReaderState,
    stage: Stage,
    preserve: bool,
)
    ensures
        comes(dressed(v, state, stage, preserve), tokens) == comes(v, tokens),
        after(dressed(v, state, stage, preserve), tokens.len()) == dressed(
            after(v, tokens.len()),
            state,
            stage,
            preserve,
        ),
    decreases tokens.len(),
{
    if tokens.len() > 0 {
        lemma_dressed_token(v, state, stage, preserve);
        lemma_dressed(model::next_token(v).1, tokens.drop_first(), state, stage, preserve);
    }
}

/// Tokens come in two parts as they come in one.
pub proof fn lemma_comes_parts(v: ReaderView, a: Seq<TokenView>, b: Seq<TokenView>)
    ensures
        comes(v, a + b) == (comes(v, a) && comes(after(v, a.len()), b)),
        after(v, (a + b).len()) == after(after(v, a.len()), b.len()),
    decreases a.len(),
{
    if a.len() == 0 {
        assert(a + b =~= b);
    } else {
        assert((a + b).drop_first() =~= a.drop_first() + b);
        assert((a + b)[0] == a[0]);
        lemma_comes_parts(model::next_token(v).1, a.drop_first(), b);
    }
}

/// Some tokens and then more.
pub proof fn lemma_after_sum(v: ReaderView, a: nat, b: nat)
    ensures
        after(v, a + b) == after(after(v, a), b),
    decreases a,
{
    if a > 0 {
        lemma_after_sum(model::next_token(v).1, (a - 1) as nat, b);
    }
}

/// A first token and the rest.
pub proof fn lemma_comes_first(v: ReaderView, token: TokenView, rest: Seq<TokenView>)
    ensures
        comes(v, seq![token] + rest) == (model::next_token(v).0 == Reply::Ready(Some(token))
            && comes(model::next_token(v).1, rest)),
        after(v, (seq![token] + rest).len()) == after(model::next_token(v).1, rest.len()),
        after(v, 1) == model::next_token(v).1,
{
    assert((seq![token] + rest).drop_first() =~= rest);
    assert(after(v, 1) == after(model::next_token(v).1, 0));
}

/// Tokens that come leave the reader sound, with the buffer, the state, the waiting
/// operation and the keeping as they were, and the depth as they count it.
pub proof fn lemma_comes_frame(v: ReaderView, tokens: Seq<TokenView>)
    requires
        v.sound(),
        comes(v, tokens),
    ensures
        ({
            let w = after(v, tokens.len());
            &&& w.sound()
            &&& w.buffer == v.buffer
            &&& w.state == v.state
            &&& w.stage == v.stage
            &&& w.preserve == v.preserve
            &&& w.depth == level(tokens, v.depth)
            &&& v.position <= w.position
            &&& tokens.len() > 0 || v.seen.len() == 0 ==> w.seen.len() == 0
        }),
    decreases tokens.len(),
{
    if tokens.len() > 0 {
        model::lemma_next_token_shrinks(v);
        lemma_comes_frame(model::next_token(v).1, tokens.drop_first());
        assert({
            let w = model::next_token(v).1;
            &&& w.depth == model::depth_after(v.depth, tokens[0])
            &&& v.position <= w.position
        }) by {
            reveal(model::next_token);
        }
    }
}

/// One token.
pub proof fn lemma_one(v: ReaderView, token: TokenView)
    requires
        v.sound(),
        model::next_token(v).0 == Reply::Ready(Some(token)),
    ensures
        ({
            let w = model::next_token(v).1;
            &&& w.sound()
            &&& w.buffer == v.buffer
            &&& w.state == v.state
            &&& w.stage == v.stage
            &&& w.preserve == v.preserve
            &&& w.depth == model::depth_after(v.depth, token)
            &&& v.position <= w.position
            &&& w.seen.len() == 0
        }),
        comes(v, seq![token]),
        after(v, 1) == model::next_token(v).1,
{
    let none = Seq::<TokenView>::empty();
    assert(seq![token] + none =~= seq![token]);
    lemma_comes_first(v, token, none);
    lemma_comes_frame(v, seq![token]);
    lemma_level_first(token, none, v.depth, 0);
}

/// The depth after the tokens.
pub open spec fn level(tokens: Seq<TokenView>, depth: int) -> int
    decreases tokens.len(),
{
    if tokens.len() == 0 {
        depth
    } else {
        level(tokens.drop_first(), model::depth_after(depth, tokens[0]))
    }
}

/// No less deep than `floor` all along.
pub open spec fn above(tokens: Seq<TokenView>, depth: int, floor: int) -> bool
    decreases tokens.len(),
{
    tokens.len() > 0 ==> {
        let next = model::depth_after(depth, tokens[0]);
        &&& next >= floor
        &&& above(tokens.drop_first(), next, floor)
    }
}

/// No less deep than `floor` all along, and no key at that very depth.
pub open spec fn within(tokens: Seq<TokenView>, depth: int, floor: int) -> bool
    decreases tokens.len(),
{
    tokens.len() > 0 ==> {
        let next = model::depth_after(depth, tokens[0]);
        &&& next >= floor
        &&& next == floor ==> !(tokens[0] is Key)
        &&& within(tokens.drop_first(), next, floor)
    }
}

pub proof fn lemma_level_parts(a: Seq<TokenView>, b: Seq<TokenView>, depth: int, floor: int)
    ensures
        level(a + b, depth) == level(b, level(a, depth)),
        above(a + b, depth, floor) == (above(a, depth, floor) && above(b, level(a, depth), floor)),
        within(a + b, depth, floor) == (within(a, depth, floor) && within(
            b,
            level(a, depth),
            floor,
        )),
    decreases a.len(),
{
    if a.len() == 0 {
        assert(a + b =~= b);
    } else {
        assert((a + b).drop_first() =~= a.drop_first() + b);
        lemma_level_parts(a.drop_first(), b, model::depth_after(depth, a[0]), floor);
    }
}

pub proof fn lemma_level_first(token: TokenView, rest: Seq<TokenView>, depth: int, floor: int)
    ensures
        level(seq![token] + rest, depth) == level(rest, model::depth_after(depth, token)),
        above(seq![token] + rest, depth, floor) == {
            let next = model::depth_after(depth, token);
            next >= floor && above(rest, next, floor)
        },
        within(seq![token] + rest, depth, floor) == {
            let next = model::depth_after(depth, token);
            &&& next >= floor
            &&& next == floor ==> !(token is Key)
            &&& within(rest, next, floor)
        },
{
    assert((seq![token] + rest).drop_first() =~= rest);
}

/// A value leaves the depth as it was and keeps to itself.
pub proof fn lemma_value_level(json: Json, depth: int, floor: int)
    requires
        floor <= depth,
    ensures
        level(tokens_of(json), depth) == depth,
        above(tokens_of(json), depth, floor),
        within(tokens_of(json), depth, floor),
    decreases json, 0int,
{
    match json {
        Json::Array(items) => {
            let open = seq![TokenView::StartArray];
            let close = seq![TokenView::EndArray];
            lemma_items_level(items, depth + 1, floor);
            lemma_level_parts(open + item_tokens(items), close, depth, floor);
            lemma_level_first(TokenView::StartArray, item_tokens(items), depth, floor);
            lemma_level_first(TokenView::EndArray, Seq::empty(), depth + 1, floor);
            assert(close + Seq::<TokenView>::empty() =~= close);
        },
        Json::Object(members) => {
            let open = seq![TokenView::StartObject];
            let close = seq![TokenView::EndObject];
            lemma_members_level(members, depth + 1, floor);
            lemma_level_parts(open + member_tokens(members), close, depth, floor);
            lemma_level_first(TokenView::StartObject, member_tokens(members), depth, floor);
            lemma_level_first(TokenView::EndObject, Seq::empty(), depth + 1, floor);
            assert(close + Seq::<TokenView>::empty() =~= close);
        },
        _ => {
            let tokens = tokens_of(json);
            lemma_level_first(tokens[0], Seq::empty(), depth, floor);
            assert(seq![tokens[0]] + Seq::<TokenView>::empty() =~= tokens);
        },
    }
}

/// Items leave the depth as it was and keep to themselves.
pub proof fn lemma_items_level(items: Seq<Json>, depth: int, floor: int)
    requires
        floor <= depth,
    ensures
        level(item_tokens(items), depth) == depth,
        above(item_tokens(items), depth, floor),
        within(item_tokens(items), depth, floor),
        level(more_items(items), depth) == depth,
        above(more_items(items), depth, floor),
        within(more_items(items), depth, floor),
    decreases items, 1int,
{
    if items.len() > 0 {
        lemma_value_level(items[0], depth, floor);
        lemma_items_level(items.drop_first(), depth, floor);
        lemma_level_parts(tokens_of(items[0]), more_items(items.drop_first()), depth, floor);
        lemma_level_first(TokenView::EndObjectOrListItem, item_tokens(items), depth, floor);
    }
}

/// Members leave the depth as it was and keep to themselves inside their object.
pub proof fn lemma_members_level(members: Seq<Member>, depth: int, floor: int)
    requires
        floor <= depth,
    ensures
        level(member_tokens(members), depth) == depth,
        above(member_tokens(members), depth, floor),
        floor < depth ==> within(member_tokens(members), depth, floor),
        level(more_members(members), depth) == depth,
        above(more_members(members), depth, floor),
        floor < depth ==> within(more_members(members), depth, floor),
    decreases members, 1int,
{
    if members.len() > 0 {
        let key = TokenView::Key(members[0].key);
        let first = tokens_of(members[0].value);
        let rest = more_members(members.drop_first());
        lemma_value_level(members[0].value, depth, floor);
        lemma_members_level(members.drop_first(), depth, floor);
        lemma_level_parts(seq![key] + first, rest, depth, floor);
        lemma_level_first(key, first, depth, floor);
        lemma_level_first(TokenView::EndObjectOrListItem, member_tokens(members), depth, floor);
    }
}

} // verus!
