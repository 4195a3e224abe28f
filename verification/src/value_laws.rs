//! Laws on well-formed values: what the operations do with a value, an object or an
//! array whose tokens are all there.
use vstd::prelude::*;

use crate::chunk_laws;
use crate::grammar;
use crate::model;
use crate::model::{ReaderState, ReaderView, Reply, Stage};
use crate::object;
use crate::place;
use crate::place::Place;
use crate::token::TokenView;
use crate::value;
use crate::value::{Json, Member};

verus! {

/// Tokens deeper than `floor` are passed over in a skip.
proof fn lemma_skip_over(v: ReaderView, tokens: Seq<TokenView>, floor: int)
    requires
        v.sound(),
        v.depth > floor,
        value::comes(v, tokens),
        value::above(tokens, v.depth, floor + 1),
    ensures
        model::skip_rest(v, floor) == model::skip_rest(value::after(v, tokens.len()), floor),
    decreases tokens.len(),
{
    if tokens.len() > 0 {
        value::lemma_one(v, tokens[0]);
        lemma_skip_over(model::next_token(v).1, tokens.drop_first(), floor);
    }
}

/// Tokens deeper than `floor` are gathered.
proof fn lemma_gather_over(v: ReaderView, tokens: Seq<TokenView>, floor: int, start: int)
    requires
        v.sound(),
        v.depth > floor,
        value::comes(v, tokens),
        value::above(tokens, v.depth, floor + 1),
    ensures
        model::gather(v, floor, start) == model::gather(
            value::after(v, tokens.len()),
            floor,
            start,
        ),
    decreases tokens.len(),
{
    if tokens.len() > 0 {
        value::lemma_one(v, tokens[0]);
        lemma_gather_over(model::next_token(v).1, tokens.drop_first(), floor, start);
    }
}

/// Tokens that keep to themselves are passed over in the search for a key.
proof fn lemma_seek_over(v: ReaderView, tokens: Seq<TokenView>, target: Seq<char>, floor: int)
    requires
        v.sound(),
        value::comes(v, tokens),
        value::within(tokens, v.depth, floor),
    ensures
        model::seek_key(v, target, floor) == model::seek_key(
            value::after(v, tokens.len()),
            target,
            floor,
        ),
    decreases tokens.len(),
{
    if tokens.len() > 0 {
        value::lemma_one(v, tokens[0]);
        lemma_seek_over(model::next_token(v).1, tokens.drop_first(), target, floor);
    }
}

/// The inside of brackets, from the opening one on: what `inner` holds and the closing
/// one come, and the closing one is the first to bring the depth back.
proof fn lemma_bracketed(
    v: ReaderView,
    open: TokenView,
    inner: Seq<TokenView>,
    close: TokenView,
)
    requires
        v.sound(),
        open is StartObject || open is StartArray,
        close is EndObject || close is EndArray,
        value::comes(v, seq![open] + inner + seq![close]),
        value::level(inner, v.depth + 1) == v.depth + 1,
    ensures
        ({
            let first = model::next_token(v).1;
            let last = value::after(first, inner.len());
            &&& model::next_token(v).0 == Reply::Ready(Some(open))
            &&& first.sound()
            &&& first.depth == v.depth + 1
            &&& first.seen.len() == 0
            &&& value::comes(first, inner)
            &&& last.sound()
            &&& last.depth == v.depth + 1
            &&& model::next_token(last).0 == Reply::Ready(Some(close))
            &&& model::next_token(last).1 == value::after(v, inner.len() + 2)
            &&& model::next_token(last).1.depth == v.depth
            &&& model::next_token(last).1.sound()
            &&& model::next_token(last).1.seen.len() == 0
        }),
{
    let first = model::next_token(v).1;
    let last = value::after(first, inner.len());
    assert(seq![open] + inner + seq![close] =~= seq![open] + (inner + seq![close]));
    value::lemma_comes_first(v, open, inner + seq![close]);
    value::lemma_comes_parts(first, inner, seq![close]);
    value::lemma_one(v, open);
    value::lemma_comes_frame(first, inner);
    value::lemma_one(last, close);
    value::lemma_comes_parts(v, seq![open] + inner, seq![close]);
    value::lemma_comes_parts(v, seq![open], inner);
}

/// A skip from inside brackets ends with the closing one.
proof fn lemma_skip_to_close(v: ReaderView, inner: Seq<TokenView>, close: TokenView, floor: int)
    requires
        v.sound(),
        v.depth == floor + 1,
        value::comes(v, inner),
        value::above(inner, v.depth, floor + 1),
        value::level(inner, v.depth) == v.depth,
        model::next_token(value::after(v, inner.len())).0 == Reply::Ready(Some(close)),
        model::next_token(value::after(v, inner.len())).1.depth == floor,
    ensures
        model::skip_rest(v, floor) == (
            Reply::<()>::Ready(()),
            model::next_token(value::after(v, inner.len())).1.in_state(
                ReaderState::Object,
            ).idle(),
        ),
{
    let last = value::after(v, inner.len());
    lemma_skip_over(v, inner, floor);
    value::lemma_comes_frame(v, inner);
    value::lemma_one(last, close);
    let done = model::next_token(last).1;
    assert(model::skip_rest(done, floor) == (
        Reply::<()>::Ready(()),
        done.in_state(ReaderState::Object).idle(),
    ));
}

/// A value in brackets, or an object, is skipped up to the closing bracket.
proof fn lemma_skip_bracketed(
    v: ReaderView,
    open: TokenView,
    inner: Seq<TokenView>,
    close: TokenView,
    state: ReaderState,
)
    requires
        v.sound(),
        v.stage is Idle,
        open is StartObject || open is StartArray,
        close is EndObject || close is EndArray,
        value::comes(v, seq![open] + inner + seq![close]),
        value::level(inner, v.depth + 1) == v.depth + 1,
        value::above(inner, v.depth + 1, v.depth + 1),
    ensures
        model::next_token(v).0 == Reply::Ready(Some(open)),
        model::skip_rest(
            model::next_token(v).1.in_state(state).in_stage(Stage::Skip { floor: v.depth }),
            v.depth,
        ) == (
            Reply::<()>::Ready(()),
            value::after(v, inner.len() + 2).in_state(ReaderState::Object),
        ),
{
    lemma_bracketed(v, open, inner, close);
    let first = model::next_token(v).1;
    let last = value::after(first, inner.len());
    let stage = Stage::Skip { floor: v.depth };
    let skipping = value::dressed(first, state, stage, first.preserve);
    value::lemma_dressed(first, inner, state, stage, first.preserve);
    value::lemma_dressed_token(last, state, stage, first.preserve);
    assert(skipping.input() == first.input());
    lemma_skip_to_close(skipping, inner, close, v.depth);
    value::lemma_one(v, open);
    value::lemma_comes_frame(v, seq![open] + inner + seq![close]);
    assert((seq![open] + inner + seq![close]).len() == inner.len() + 2);
    assert(skipping == first.in_state(state).in_stage(stage));
}

/// A well-formed value is skipped, and just its tokens are used up.
pub proof fn law_value_is_skipped(v: ReaderView, tokens: Seq<TokenView>)
    requires
        v.sound(),
        v.stage is Idle,
        value::value(tokens),
        value::comes(v, tokens),
    ensures
        model::skip_value(v) == (
            Reply::<()>::Ready(()),
            value::after(v, tokens.len()).in_state(ReaderState::Object),
        ),
{
    let json = choose|json: Json| value::tokens_of(json) == tokens;
    match json {
        Json::Array(items) => {
            let inner = value::item_tokens(items);
            value::lemma_items_level(items, v.depth + 1, v.depth + 1);
            lemma_skip_bracketed(
                v,
                TokenView::StartArray,
                inner,
                TokenView::EndArray,
                model::next_token(v).1.state,
            );
        },
        Json::Object(members) => {
            let inner = value::member_tokens(members);
            value::lemma_members_level(members, v.depth + 1, v.depth + 1);
            lemma_skip_bracketed(
                v,
                TokenView::StartObject,
                inner,
                TokenView::EndObject,
                model::next_token(v).1.state,
            );
        },
        _ => {
            value::lemma_comes_first(v, tokens[0], Seq::empty());
            assert(seq![tokens[0]] + Seq::<TokenView>::empty() =~= tokens);
        },
    }
}

/// A well-formed object is skipped, and just its tokens are used up.
pub proof fn law_object_is_skipped(v: ReaderView, tokens: Seq<TokenView>)
    requires
        v.sound(),
        v.stage is Idle,
        value::object(tokens),
        value::comes(v, tokens),
    ensures
        model::skip_object(v) == (
            Reply::<()>::Ready(()),
            value::after(v, tokens.len()).in_state(ReaderState::Object),
        ),
{
    let members = choose|members: Seq<Member>|
        value::tokens_of(Json::Object(members)) == tokens;
    value::lemma_members_level(members, v.depth + 1, v.depth + 1);
    lemma_skip_bracketed(
        v,
        TokenView::StartObject,
        value::member_tokens(members),
        TokenView::EndObject,
        ReaderState::Object,
    );
}

/// A well-formed object is read whole: just its tokens are used up, the parser is handed
/// just their bytes, its result is the reply, and the reader goes on as after a skip.
pub proof fn law_object_is_deserialized(v: ReaderView, tokens: Seq<TokenView>)
    requires
        v.sound(),
        v.at_rest(),
        value::object(tokens),
        value::comes(v, tokens),
    ensures
        ({
            let x = value::after(v, tokens.len());
            &&& model::deserialize_object(v) == (
                model::object_reply(
                    object::parsed_object(v.buffer.subrange(v.position, x.position)),
                    v.position,
                ),
                value::dressed(x, ReaderState::Object, Stage::Idle, false),
            )
            &&& chunk_laws::alike(model::skip_object(v).1, model::deserialize_object(v).1)
        }),
{
    let members = choose|members: Seq<Member>|
        value::tokens_of(Json::Object(members)) == tokens;
    let inner = value::member_tokens(members);
    let open = TokenView::StartObject;
    let close = TokenView::EndObject;
    value::lemma_members_level(members, v.depth + 1, v.depth + 1);
    lemma_bracketed(v, open, inner, close);
    let begun = model::begin_gather(v);
    let first = model::next_token(v).1;
    let last = value::after(first, inner.len());
    let state = ReaderState::Object;
    let stage = Stage::Deserialize { floor: v.depth, start: v.position, opened: true };
    let waiting = Stage::Deserialize { floor: v.depth, start: v.position, opened: false };
    value::lemma_dressed_token(v, v.state, waiting, true);
    assert(begun == value::dressed(v, v.state, waiting, true));
    let gathering = value::dressed(first, state, stage, true);
    assert(model::start_object(begun).1.in_stage(stage) == gathering);
    value::lemma_dressed(first, inner, state, stage, true);
    value::lemma_dressed_token(last, state, stage, true);
    assert(gathering.input() == first.input());
    lemma_gather_over(gathering, inner, v.depth, v.position);
    let dressed_last = value::dressed(last, state, stage, true);
    value::lemma_one(dressed_last, close);
    let done = model::next_token(dressed_last).1;
    assert(model::gather(done, v.depth, v.position) == model::parse_gathered(done, v.position));
    value::lemma_comes_frame(v, tokens);
    law_object_is_skipped(v, tokens);
    assert(tokens.len() == inner.len() + 2);
    let a = model::skip_object(v).1;
    let b = model::deserialize_object(v).1;
    assert(a.input() == b.input());
}

/// An object that the stream ends inside of is refused, read whole or skipped, whatever the
/// parser makes of its text; what is then behind the reader is not kept.
pub proof fn law_cut_object_is_refused(v: ReaderView, inner: Seq<TokenView>)
    requires
        v.sound(),
        v.at_rest(),
        value::comes(v, seq![TokenView::StartObject] + inner),
        value::above(inner, v.depth + 1, v.depth + 1),
        model::next_token(value::after(v, inner.len() + 1)).0 == Reply::<Option<TokenView>>::Ready(
            None,
        ),
    ensures
        model::deserialize_object(v).0 matches Reply::Failed(error) && error is JsonError,
        !model::deserialize_object(v).1.preserve,
        model::skip_object(v).0 matches Reply::Failed(error) && error is JsonError,
{
    let open = TokenView::StartObject;
    let state = ReaderState::Object;
    let first = model::next_token(v).1;
    let last = value::after(first, inner.len());
    value::lemma_comes_first(v, open, inner);
    value::lemma_one(v, open);
    value::lemma_after_sum(v, 1, inner.len());
    value::lemma_comes_frame(first, inner);
    lemma_above_level(inner, v.depth + 1, v.depth + 1);
    let stage = Stage::Deserialize { floor: v.depth, start: v.position, opened: true };
    let waiting = Stage::Deserialize { floor: v.depth, start: v.position, opened: false };
    value::lemma_dressed_token(v, v.state, waiting, true);
    assert(model::begin_gather(v) == value::dressed(v, v.state, waiting, true));
    let gathering = value::dressed(first, state, stage, true);
    assert(model::start_object(model::begin_gather(v)).1.in_stage(stage) == gathering);
    value::lemma_dressed(first, inner, state, stage, true);
    value::lemma_dressed_token(last, state, stage, true);
    assert(gathering.input() == first.input());
    lemma_gather_over(gathering, inner, v.depth, v.position);
    let skip = Stage::Skip { floor: v.depth };
    let skipping = value::dressed(first, state, skip, first.preserve);
    value::lemma_dressed(first, inner, state, skip, first.preserve);
    value::lemma_dressed_token(last, state, skip, first.preserve);
    assert(skipping.input() == first.input());
    lemma_skip_over(skipping, inner, v.depth);
}

/// Tokens that are no less deep than `floor` all along end so.
proof fn lemma_above_level(tokens: Seq<TokenView>, depth: int, floor: int)
    requires
        floor <= depth,
        value::above(tokens, depth, floor),
    ensures
        value::level(tokens, depth) >= floor,
    decreases tokens.len(),
{
    if tokens.len() > 0 {
        let next = model::depth_after(depth, tokens[0]);
        lemma_above_level(tokens.drop_first(), next, floor);
    }
}

/// The reader is brought before the members: what leads to them is used up, but for a
/// comma, which the next operation passes over.
proof fn lemma_reach(v: ReaderView, lead: Seq<TokenView>, members: Seq<Member>) -> (comma: Seq<
    TokenView,
>)
    requires
        v.sound(),
        v.stage is Idle,
        value::stands_before(v, lead, members),
    ensures
        comma == Seq::<TokenView>::empty() || comma == value::comma_before(members.len() > 0),
        comma.len() <= lead.len(),
        ({
            let w = value::after(v, (lead.len() - comma.len()) as nat).in_state(
                ReaderState::Object,
            );
            &&& model::reach_key(v) == (Reply::<()>::Ready(()), w)
            &&& w.sound()
            &&& w.stage is Idle
            &&& w.preserve == v.preserve
            &&& w.depth == (if v.state is Start {
                v.depth + 1
            } else {
                v.depth
            })
            &&& value::comes(w, comma + value::body(members))
            &&& value::after(w, (comma + value::body(members)).len()) == value::after(
                v,
                (lead + value::body(members)).len(),
            ).in_state(ReaderState::Object)
            &&& value::after(w, comma.len() + 1) == value::after(v, lead.len() + 1).in_state(
                ReaderState::Object,
            )
        }),
{
    let body = value::body(members);
    let object = ReaderState::Object;
    let comma = match v.state {
        ReaderState::Start => Seq::empty(),
        ReaderState::Object => lead,
        ReaderState::Value => value::comma_before(members.len() > 0),
    };
    let front = match v.state {
        ReaderState::Start => lead,
        ReaderState::Object => Seq::empty(),
        ReaderState::Value => choose|left: Seq<TokenView>| #[trigger]
            value::value(left) && lead == left + comma,
    };
    assert(lead =~= front + comma);
    assert(lead + body =~= front + (comma + body));
    value::lemma_comes_parts(v, front, comma + body);
    value::lemma_comes_frame(v, front);
    let bare = value::after(v, front.len());
    let w = bare.in_state(object);
    assert(w == value::dressed(bare, object, bare.stage, bare.preserve));
    value::lemma_dressed(bare, comma + body, object, bare.stage, bare.preserve);
    assert(w.input() == bare.input());
    match v.state {
        ReaderState::Start => {
            value::lemma_one(v, TokenView::StartObject);
        },
        ReaderState::Object => {
            assert(w == v);
        },
        ReaderState::Value => {
            law_value_is_skipped(v, front);
            let json = choose|json: Json| value::tokens_of(json) == front;
            value::lemma_value_level(json, v.depth, v.depth);
        },
    }
    let some = (comma + body).take(comma.len() + 1int);
    assert(comma + body =~= some + (comma + body).skip(comma.len() + 1int));
    assert(body.len() > 0);
    assert(some.len() == comma.len() + 1);
    assert((front + some).len() == lead.len() + 1);
    value::lemma_comes_parts(v, front, some);
    value::lemma_dressed(bare, some, object, bare.stage, bare.preserve);
    value::lemma_comes_parts(bare, some, (comma + body).skip(comma.len() + 1int));
    value::lemma_comes_frame(bare, some);
    value::lemma_comes_frame(bare, comma + body);
    comma
}

/// The next entry of a well-formed object is its next member, whatever became of the value
/// before it; after the last one the object is left.
pub proof fn law_next_entry(v: ReaderView, lead: Seq<TokenView>, members: Seq<Member>)
    requires
        v.sound(),
        v.stage is Idle,
        value::stands_before(v, lead, members),
    ensures
        ({
            let x = value::after(v, lead.len() + 1);
            if members.len() == 0 {
                model::next_object_entry(v) == (
                    Reply::<Option<Seq<char>>>::Ready(None),
                    x.in_state(ReaderState::Object),
                )
            } else {
                &&& model::next_object_entry(v) == (
                    Reply::Ready(Some(members[0].key)),
                    x.in_state(ReaderState::Value),
                )
                &&& value::comes(
                    x.in_state(ReaderState::Value),
                    value::tokens_of(members[0].value) + value::comma_before(members.len() > 1)
                        + value::body(members.drop_first()),
                )
            }
        }),
{
    let comma = lemma_reach(v, lead, members);
    let w = model::reach_key(v).1;
    let body = value::body(members);
    let start = value::after(w, comma.len());
    value::lemma_comes_parts(w, comma, body);
    value::lemma_comes_frame(w, comma);
    if comma.len() > 0 {
        value::lemma_one(w, TokenView::EndObjectOrListItem);
    }
    assert(model::read_key(w) == model::read_key(start));
    assert(value::after(w, comma.len() + 1) == model::next_token(start).1) by {
        value::lemma_comes_parts(w, comma, body.take(1));
        value::lemma_comes_first(start, body[0], Seq::empty());
        assert(body.take(1) =~= seq![body[0]] + Seq::<TokenView>::empty());
        assert((comma + body.take(1)).len() == comma.len() + 1);
    }
    if members.len() == 0 {
        assert(body =~= seq![TokenView::EndObject]);
    } else {
        let key = TokenView::Key(members[0].key);
        let rest = value::tokens_of(members[0].value) + value::comma_before(members.len() > 1)
            + value::body(members.drop_first());
        assert(body =~= seq![key] + rest);
        value::lemma_comes_first(start, key, rest);
        let x = value::after(v, lead.len() + 1);
        let kept = x.in_state(ReaderState::Object);
        value::lemma_dressed(kept, rest, ReaderState::Value, kept.stage, kept.preserve);
        assert(value::dressed(kept, ReaderState::Value, kept.stage, kept.preserve) == x.in_state(
            ReaderState::Value,
        ));
    }
}

/// What may become of a value of `n` tokens that is next in `w`: it is left, or it is used
/// up whole, as reading, skipping and deserializing do.
pub open spec fn handled(w: ReaderView, x: ReaderView, n: nat) -> bool {
    x == w || x == value::dressed(
        value::after(w, n),
        ReaderState::Object,
        Stage::Idle,
        x.preserve,
    )
}

/// The readers on which the next entry is asked for, one after the other, with each value
/// handled in between.
pub open spec fn walk(readers: Seq<ReaderView>, members: Seq<Member>) -> bool {
    &&& readers.len() == members.len() + 1
    &&& forall|i: int|
        0 <= i < members.len() ==> handled(
            model::next_object_entry(#[trigger] readers[i]).1,
            readers[i + 1],
            value::tokens_of(members[i].value).len(),
        )
}

/// Asking for the next entry gives every member's key once, in order, and then tells that
/// the object has ended, right after its closing brace, whichever values were read, skipped
/// or left. Keys of objects inside it do not come.
pub proof fn law_entries_come_in_order(
    readers: Seq<ReaderView>,
    lead: Seq<TokenView>,
    members: Seq<Member>,
)
    requires
        walk(readers, members),
        readers[0].sound(),
        readers[0].stage is Idle,
        value::stands_before(readers[0], lead, members),
    ensures
        forall|i: int|
            0 <= i < members.len() ==> model::next_object_entry(#[trigger] readers[i]).0
                == Reply::Ready(Some(members[i].key)),
        ({
            let (reply, end) = model::next_object_entry(readers[members.len() as int]);
            &&& reply == Reply::<Option<Seq<char>>>::Ready(None)
            &&& end == value::dressed(
                value::after(readers[0], (lead + value::body(members)).len()),
                ReaderState::Object,
                Stage::Idle,
                end.preserve,
            )
        }),
    decreases members.len(),
{
    law_next_entry(readers[0], lead, members);
    if members.len() == 0 {
        lemma_entry_end(readers[0], lead, members);
    } else {
        let rest = members.drop_first();
        let later = readers.drop_first();
        assert(handled(
            model::next_object_entry(readers[0]).1,
            readers[0int + 1],
            value::tokens_of(members[0].value).len(),
        ));
        let next = lemma_entry_step(readers[0], lead, members, readers[1]);
        assert forall|i: int| 0 <= i < rest.len() implies handled(
            model::next_object_entry(#[trigger] later[i]).1,
            later[i + 1],
            value::tokens_of(rest[i].value).len(),
        ) by {
            assert(later[i] == readers[i + 1]);
            assert(handled(
                model::next_object_entry(readers[i + 1]).1,
                readers[i + 1 + 1],
                value::tokens_of(members[i + 1].value).len(),
            ));
        }
        law_entries_come_in_order(later, next, rest);
        assert forall|i: int| 0 <= i < members.len() implies model::next_object_entry(
            #[trigger] readers[i],
        ).0 == Reply::Ready(Some(members[i].key)) by {
            if i > 0 {
                assert(readers[i] == later[i - 1]);
                assert(members[i] == rest[i - 1]);
            }
        }
        assert(readers[members.len() as int] == later[rest.len() as int]);
    }
}

/// After the last entry, the whole object has been used up.
proof fn lemma_entry_end(v: ReaderView, lead: Seq<TokenView>, members: Seq<Member>)
    requires
        v.sound(),
        v.stage is Idle,
        value::stands_before(v, lead, members),
        members.len() == 0,
    ensures
        value::after(v, lead.len() + 1) == value::after(v, (lead + value::body(members)).len()),
        value::after(v, lead.len() + 1).stage is Idle,
{
    assert((lead + value::body(members)).len() == lead.len() + 1);
    value::lemma_comes_frame(v, lead + value::body(members));
}

/// After an entry whose value was handled, the reader stands before the members that
/// follow.
proof fn lemma_entry_step(
    v: ReaderView,
    lead: Seq<TokenView>,
    members: Seq<Member>,
    y: ReaderView,
) -> (next: Seq<TokenView>)
    requires
        v.sound(),
        v.stage is Idle,
        value::stands_before(v, lead, members),
        members.len() > 0,
        handled(
            model::next_object_entry(v).1,
            y,
            value::tokens_of(members[0].value).len(),
        ),
    ensures
        y.sound(),
        y.stage is Idle,
        value::stands_before(y, next, members.drop_first()),
        value::after(y, (next + value::body(members.drop_first())).len()) == value::dressed(
            value::after(v, (lead + value::body(members)).len()),
            y.state,
            Stage::Idle,
            y.preserve,
        ),
{
    law_next_entry(v, lead, members);
    let rest = members.drop_first();
    let first = value::tokens_of(members[0].value);
    let comma = value::comma_before(rest.len() > 0);
    let tail = comma + value::body(rest);
    let whole = lead + value::body(members);
    let x = value::after(v, lead.len() + 1);
    let w = x.in_state(ReaderState::Value);
    let upto = lead.push(TokenView::Key(members[0].key));
    assert(whole =~= upto + (first + tail));
    assert(first + comma + value::body(rest) =~= first + tail);
    value::lemma_comes_parts(v, upto, first + tail);
    value::lemma_comes_frame(v, upto);
    assert(w == value::dressed(x, ReaderState::Value, x.stage, x.preserve));
    value::lemma_dressed(x, first + tail, ReaderState::Value, x.stage, x.preserve);
    assert(w.input() == x.input());
    value::lemma_comes_parts(w, first, tail);
    value::lemma_comes_frame(w, first);
    value::lemma_comes_frame(v, whole);
    if y == w {
        assert(value::value(first));
        assert((first + comma) + value::body(rest) =~= first + tail);
        first + comma
    } else {
        let past = value::after(w, first.len());
        value::lemma_dressed(past, tail, ReaderState::Object, Stage::Idle, y.preserve);
        assert(y.input() == past.input());
        comma
    }
}

/// The first member with this key.
pub open spec fn first_with_key(members: Seq<Member>, i: int, target: Seq<char>) -> bool {
    &&& 0 <= i < members.len()
    &&& members[i].key == target
    &&& forall|j: int| 0 <= j < i ==> (#[trigger] members[j]).key != target
}

/// No member has this key.
pub open spec fn without_key(members: Seq<Member>, target: Seq<char>) -> bool {
    forall|j: int| 0 <= j < members.len() ==> (#[trigger] members[j]).key != target
}

/// What follows the key of the member at `i`.
pub open spec fn from_value(members: Seq<Member>, i: int) -> Seq<TokenView> {
    value::tokens_of(members[i].value) + value::comma_before(i + 1 < members.len())
        + value::body(members.skip(i + 1))
}

/// A comma is passed over in the search for a key.
proof fn lemma_seek_comma(
    w: ReaderView,
    comma: Seq<TokenView>,
    rest: Seq<TokenView>,
    target: Seq<char>,
)
    requires
        w.sound(),
        comma == Seq::<TokenView>::empty() || comma == seq![TokenView::EndObjectOrListItem],
        value::comes(w, comma + rest),
    ensures
        ({
            let start = value::after(w, comma.len());
            &&& model::seek_key(w, target, w.depth) == model::seek_key(start, target, w.depth)
            &&& start.sound()
            &&& start.depth == w.depth
            &&& value::comes(start, rest)
        }),
{
    value::lemma_comes_parts(w, comma, rest);
    value::lemma_comes_frame(w, comma);
    if comma.len() > 0 {
        value::lemma_level_first(
            TokenView::EndObjectOrListItem,
            Seq::empty(),
            w.depth,
            w.depth,
        );
        assert(seq![TokenView::EndObjectOrListItem] + Seq::<TokenView>::empty() =~= comma);
        lemma_seek_over(w, comma, target, w.depth);
    }
}

/// A member with another key is passed over in the search.
proof fn lemma_seek_member(start: ReaderView, members: Seq<Member>, target: Seq<char>)
    requires
        start.sound(),
        members.len() > 0,
        value::comes(start, value::body(members)),
        members[0].key != target,
    ensures
        ({
            let n = value::tokens_of(members[0].value).len() + 1;
            let past = value::after(start, n);
            &&& model::seek_key(start, target, start.depth) == model::seek_key(
                past,
                target,
                start.depth,
            )
            &&& past.sound()
            &&& past.depth == start.depth
            &&& value::comes(
                past,
                value::comma_before(members.len() > 1) + value::body(members.drop_first()),
            )
            &&& value::body(members).len() == n + (value::comma_before(members.len() > 1)
                + value::body(members.drop_first())).len()
        }),
{
    let key = TokenView::Key(members[0].key);
    let first = value::tokens_of(members[0].value);
    let tail = value::comma_before(members.len() > 1) + value::body(members.drop_first());
    assert(value::body(members) =~= seq![key] + (first + tail));
    value::lemma_comes_first(start, key, first + tail);
    value::lemma_one(start, key);
    let next = model::next_token(start).1;
    value::lemma_comes_parts(next, first, tail);
    value::lemma_value_level(members[0].value, start.depth, start.depth);
    value::lemma_comes_frame(next, first);
    lemma_seek_over(next, first, target, start.depth);
    value::lemma_comes_parts(start, seq![key], first);
}

proof fn lemma_seek_found(
    w: ReaderView,
    comma: Seq<TokenView>,
    members: Seq<Member>,
    i: int,
    target: Seq<char>,
)
    requires
        w.sound(),
        comma == Seq::<TokenView>::empty() || comma == seq![TokenView::EndObjectOrListItem],
        value::comes(w, comma + value::body(members)),
        first_with_key(members, i, target),
    ensures
        from_value(members, i).len() < (comma + value::body(members)).len(),
        ({
            let n = (comma + value::body(members)).len() - from_value(members, i).len();
            let x = value::after(w, n as nat);
            &&& model::seek_key(w, target, w.depth) == (
                Reply::<()>::Ready(()),
                x.in_state(ReaderState::Value).idle(),
            )
            &&& value::comes(x, from_value(members, i))
        }),
    decreases members.len(),
{
    lemma_seek_comma(w, comma, value::body(members), target);
    let start = value::after(w, comma.len());
    if i == 0 {
        let key = TokenView::Key(target);
        assert(members.skip(1) =~= members.drop_first());
        assert(value::body(members) =~= seq![key] + from_value(members, 0));
        value::lemma_comes_first(start, key, from_value(members, 0));
        value::lemma_one(start, key);
        value::lemma_after_sum(w, comma.len(), 1);
    } else {
        let rest = members.drop_first();
        let next = value::comma_before(members.len() > 1);
        assert(members[0].key != target);
        lemma_seek_member(start, members, target);
        let n = value::tokens_of(members[0].value).len() + 1;
        let past = value::after(start, n);
        assert forall|j: int| 0 <= j < i - 1 implies (#[trigger] rest[j]).key != target by {
            assert(rest[j] == members[j + 1]);
        }
        assert(rest[i - 1] == members[i]);
        lemma_seek_found(past, next, rest, i - 1, target);
        assert(rest.skip(i) =~= members.skip(i + 1));
        assert(from_value(rest, i - 1) == from_value(members, i));
        value::lemma_after_sum(w, comma.len(), n);
        value::lemma_after_sum(
            w,
            comma.len() + n,
            ((next + value::body(rest)).len() - from_value(members, i).len()) as nat,
        );
    }
}

proof fn lemma_seek_missing(
    w: ReaderView,
    comma: Seq<TokenView>,
    members: Seq<Member>,
    target: Seq<char>,
)
    requires
        w.sound(),
        comma == Seq::<TokenView>::empty() || comma == seq![TokenView::EndObjectOrListItem],
        value::comes(w, comma + value::body(members)),
        without_key(members, target),
    ensures
        ({
            let x = value::after(w, (comma + value::body(members)).len());
            model::seek_key(w, target, w.depth) == (
                Reply::<()>::Failed(model::key_not_found(x.position)),
                x.idle(),
            )
        }),
    decreases members.len(),
{
    lemma_seek_comma(w, comma, value::body(members), target);
    let start = value::after(w, comma.len());
    if members.len() == 0 {
        let close = TokenView::EndObject;
        assert(value::body(members) =~= seq![close] + Seq::<TokenView>::empty());
        value::lemma_comes_first(start, close, Seq::empty());
        value::lemma_one(start, close);
        value::lemma_after_sum(w, comma.len(), 1);
    } else {
        let rest = members.drop_first();
        let next = value::comma_before(members.len() > 1);
        assert(members[0].key != target);
        lemma_seek_member(start, members, target);
        let n = value::tokens_of(members[0].value).len() + 1;
        let past = value::after(start, n);
        assert forall|j: int| 0 <= j < rest.len() implies (#[trigger] rest[j]).key != target by {
            assert(rest[j] == members[j + 1]);
        }
        lemma_seek_missing(past, next, rest, target);
        value::lemma_after_sum(w, comma.len(), n);
        value::lemma_after_sum(w, comma.len() + n, (next + value::body(rest)).len());
    }
}

/// A key that is one of the current object's own members still ahead is found, at the
/// first such member: its value is next.
pub proof fn law_key_is_found(
    v: ReaderView,
    lead: Seq<TokenView>,
    members: Seq<Member>,
    i: int,
    target: Seq<char>,
)
    requires
        v.sound(),
        v.stage is Idle,
        value::stands_before(v, lead, members),
        first_with_key(members, i, target),
    ensures
        from_value(members, i).len() < (lead + value::body(members)).len(),
        ({
            let n = (lead + value::body(members)).len() - from_value(members, i).len();
            let x = value::after(v, n as nat).in_state(ReaderState::Value);
            &&& model::skip_to_key(v, target) == (Reply::<()>::Ready(()), x)
            &&& value::comes(x, from_value(members, i))
        }),
{
    let comma = lemma_reach(v, lead, members);
    let w = model::reach_key(v).1;
    let stage = Stage::SkipToKey { floor: w.depth };
    let seeking = value::dressed(w, w.state, stage, w.preserve);
    let all = comma + value::body(members);
    assert(seeking == w.in_stage(stage));
    value::lemma_dressed(w, all, w.state, stage, w.preserve);
    assert(seeking.input() == w.input());
    lemma_seek_found(seeking, comma, members, i, target);
    let n = (all.len() - from_value(members, i).len()) as nat;
    let front = all.take(n as int);
    assert(all =~= front + all.skip(n as int));
    value::lemma_comes_parts(w, front, all.skip(n as int));
    value::lemma_dressed(w, front, w.state, stage, w.preserve);
    value::lemma_comes_frame(w, front);
    let k = (lead.len() - comma.len()) as nat;
    value::lemma_after_sum(v, k, n);
    let reached = value::after(v, k);
    assert(w == value::dressed(reached, ReaderState::Object, reached.stage, reached.preserve));
    value::lemma_dressed(reached, front, ReaderState::Object, reached.stage, reached.preserve);
    assert(reached.input() == w.input());
    value::lemma_comes_frame(reached, front);
    let x = value::after(v, k + n);
    assert(value::after(seeking, n).in_state(ReaderState::Value).idle() == x.in_state(
        ReaderState::Value,
    ));
    value::lemma_dressed(
        value::after(seeking, n),
        from_value(members, i),
        ReaderState::Value,
        Stage::Idle,
        w.preserve,
    );
    assert(k + n == (lead + value::body(members)).len() - from_value(members, i).len());
}

/// A key that none of the current object's own members ahead has is not found: the search
/// ends right after the closing brace.
pub proof fn law_key_is_missing(
    v: ReaderView,
    lead: Seq<TokenView>,
    members: Seq<Member>,
    target: Seq<char>,
)
    requires
        v.sound(),
        v.stage is Idle,
        value::stands_before(v, lead, members),
        without_key(members, target),
    ensures
        ({
            let x = value::after(v, (lead + value::body(members)).len()).in_state(
                ReaderState::Object,
            );
            model::skip_to_key(v, target) == (
                Reply::<()>::Failed(model::key_not_found(x.position)),
                x,
            )
        }),
{
    let comma = lemma_reach(v, lead, members);
    let w = model::reach_key(v).1;
    let stage = Stage::SkipToKey { floor: w.depth };
    let seeking = value::dressed(w, w.state, stage, w.preserve);
    let all = comma + value::body(members);
    assert(seeking == w.in_stage(stage));
    value::lemma_dressed(w, all, w.state, stage, w.preserve);
    assert(seeking.input() == w.input());
    lemma_seek_missing(seeking, comma, members, target);
    value::lemma_comes_frame(w, all);
}

/// A look that the end of the stream has no part in leaves the reader as it was: the token
/// is punctuation, or another token comes after it.
proof fn lemma_peek_exact(w: ReaderView, token: TokenView, item: bool)
    requires
        w.sound(),
        w.at_rest(),
        model::next_token(w).0 == Reply::Ready(Some(token)),
        place::punctuation(token) || model::next_token(model::next_token(w).1).0 is Ready,
    ensures
        model::peek_rest(model::begin_peek(w, item), w.position, w.preserve) == (
            Reply::Ready(Some(token)),
            w,
        ),
{
    reveal(model::next_token);
    let look = model::begin_peek(w, item);
    assert(look.input() == w.input());
    assert(w.seen =~= Seq::<Option<u8>>::empty());
    Place::Start.lemma_bounds(w.input(), 0, w.depth);
    Place::Start.lemma_punctuation(w.input(), 0, w.depth);
    let len = grammar::lex(w.input(), w.depth)->Token_len;
    let past = w.past(len);
    if w.ended && !past.ended {
        assert(len == w.input().len());
        assert(w.input()[len - 1] is None);
        let next = model::next_token(w).1;
        assert(next.input() =~= Seq::<Option<u8>>::empty());
    }
}

/// What stands between an array's opening bracket and its end.
pub open spec fn array_body(items: Seq<Json>) -> Seq<TokenView> {
    value::item_tokens(items) + seq![TokenView::EndArray]
}

/// What the reader may have before the next item of an array: the opening bracket, or a
/// comma where an item follows.
pub open spec fn item_lead(lead: Seq<TokenView>, more: bool) -> bool {
    lead == seq![TokenView::StartArray] || lead == value::comma_before(more)
}

/// A value starts with a token of its own.
proof fn lemma_value_starts(json: Json)
    ensures
        value::tokens_of(json).len() > 0,
        !(value::tokens_of(json)[0] is EndArray),
{
}

/// The next item of a well-formed array is reached, with just its tokens next; after the
/// last one the array is left.
pub proof fn law_next_item(v: ReaderView, lead: Seq<TokenView>, items: Seq<Json>)
    requires
        v.sound(),
        v.stage is Idle,
        item_lead(lead, items.len() > 0),
        value::comes(v, lead + array_body(items)),
    ensures
        if items.len() == 0 {
            model::start_array_item(v) == (
                Reply::Ready(false),
                value::after(v, lead.len() + 1).in_state(ReaderState::Object),
            )
        } else {
            &&& model::start_array_item(v) == (Reply::Ready(true), value::after(v, lead.len()))
            &&& value::comes(
                value::after(v, lead.len()),
                value::tokens_of(items[0]) + value::comma_before(items.len() > 1) + array_body(
                    items.drop_first(),
                ),
            )
        },
{
    let body = array_body(items);
    let w = value::after(v, lead.len());
    value::lemma_comes_parts(v, lead, body);
    value::lemma_comes_frame(v, lead);
    value::lemma_after_sum(v, lead.len(), 1);
    if items.len() > 0 {
        assert(body =~= value::tokens_of(items[0]) + value::comma_before(items.len() > 1)
            + array_body(items.drop_first()));
        lemma_value_starts(items[0]);
        assert(body[0] == value::tokens_of(items[0])[0]);
    } else {
        assert(body =~= seq![TokenView::EndArray]);
    }
    let rest = body.drop_first();
    assert(body =~= seq![body[0]] + rest);
    value::lemma_comes_first(w, body[0], rest);
    if lead == seq![TokenView::StartArray] {
        value::lemma_one(v, TokenView::StartArray);
        if items.len() > 0 {
            assert(rest.len() > 0);
        }
        lemma_peek_exact(w, body[0], true);
    } else if items.len() > 0 {
        value::lemma_one(v, TokenView::EndObjectOrListItem);
    }
}

/// The readers on which the next item is asked for, one after the other, with each item
/// used up whole in between.
pub open spec fn stream(readers: Seq<ReaderView>, items: Seq<Json>) -> bool {
    &&& readers.len() == items.len() + 1
    &&& forall|i: int|
        0 <= i < items.len() ==> (#[trigger] readers[i + 1]) == value::dressed(
            value::after(
                model::start_array_item(readers[i]).1,
                value::tokens_of(items[i]).len(),
            ),
            readers[i + 1].state,
            Stage::Idle,
            readers[i + 1].preserve,
        )
}

/// Asking for the next item gives every item once, in order, with just its tokens next, and
/// then tells that the array has ended, right after its closing bracket.
pub proof fn law_items_come_in_order(
    readers: Seq<ReaderView>,
    lead: Seq<TokenView>,
    items: Seq<Json>,
)
    requires
        stream(readers, items),
        readers[0].sound(),
        readers[0].stage is Idle,
        item_lead(lead, items.len() > 0),
        value::comes(readers[0], lead + array_body(items)),
    ensures
        forall|i: int|
            0 <= i < items.len() ==> {
                &&& model::start_array_item(#[trigger] readers[i]).0 == Reply::Ready(true)
                &&& value::comes(
                    model::start_array_item(readers[i]).1,
                    value::tokens_of(items[i]),
                )
            },
        ({
            let (reply, end) = model::start_array_item(readers[items.len() as int]);
            &&& reply == Reply::Ready(false)
            &&& end == value::dressed(
                value::after(readers[0], (lead + array_body(items)).len()),
                ReaderState::Object,
                Stage::Idle,
                end.preserve,
            )
        }),
    decreases items.len(),
{
    let v = readers[0];
    law_next_item(v, lead, items);
    value::lemma_comes_frame(v, lead + array_body(items));
    if items.len() == 0 {
        assert((lead + array_body(items)).len() == lead.len() + 1);
    } else {
        let rest = items.drop_first();
        let later = readers.drop_first();
        let comma = value::comma_before(rest.len() > 0);
        assert(readers[0int + 1] == value::dressed(
            value::after(
                model::start_array_item(readers[0]).1,
                value::tokens_of(items[0]).len(),
            ),
            readers[0int + 1].state,
            Stage::Idle,
            readers[0int + 1].preserve,
        ));
        lemma_item_step(v, lead, items, readers[1]);
        assert forall|i: int| 0 <= i < rest.len() implies (#[trigger] later[i + 1])
            == value::dressed(
            value::after(
                model::start_array_item(later[i]).1,
                value::tokens_of(rest[i]).len(),
            ),
            later[i + 1].state,
            Stage::Idle,
            later[i + 1].preserve,
        ) by {
            assert(later[i] == readers[i + 1]);
            assert(later[i + 1] == readers[i + 1 + 1]);
            assert(rest[i] == items[i + 1]);
        }
        law_items_come_in_order(later, comma, rest);
        assert forall|i: int| 0 <= i < items.len() implies {
            &&& model::start_array_item(#[trigger] readers[i]).0 == Reply::Ready(true)
            &&& value::comes(model::start_array_item(readers[i]).1, value::tokens_of(items[i]))
        } by {
            if i > 0 {
                assert(readers[i] == later[i - 1]);
                assert(items[i] == rest[i - 1]);
            }
        }
        assert(readers[items.len() as int] == later[rest.len() as int]);
    }
}

/// After an item that was used up, the reader stands before the items that follow.
proof fn lemma_item_step(v: ReaderView, lead: Seq<TokenView>, items: Seq<Json>, y: ReaderView)
    requires
        v.sound(),
        v.stage is Idle,
        items.len() > 0,
        item_lead(lead, items.len() > 0),
        value::comes(v, lead + array_body(items)),
        y == value::dressed(
            value::after(value::after(v, lead.len()), value::tokens_of(items[0]).len()),
            y.state,
            Stage::Idle,
            y.preserve,
        ),
    ensures
        value::comes(value::after(v, lead.len()), value::tokens_of(items[0])),
        y.sound(),
        value::comes(
            y,
            value::comma_before(items.len() > 1) + array_body(items.drop_first()),
        ),
        value::after(
            y,
            (value::comma_before(items.len() > 1) + array_body(items.drop_first())).len(),
        ) == value::dressed(
            value::after(v, (lead + array_body(items)).len()),
            y.state,
            Stage::Idle,
            y.preserve,
        ),
{
    let first = value::tokens_of(items[0]);
    let tail = value::comma_before(items.len() > 1) + array_body(items.drop_first());
    assert(lead + array_body(items) =~= lead + (first + tail));
    value::lemma_comes_parts(v, lead, first + tail);
    value::lemma_comes_frame(v, lead);
    let w = value::after(v, lead.len());
    value::lemma_comes_parts(w, first, tail);
    value::lemma_comes_frame(w, first);
    let past = value::after(w, first.len());
    value::lemma_dressed(past, tail, y.state, Stage::Idle, y.preserve);
    assert(y.input() == past.input());
}

/// A value of the fitting kind is read, and just its token is used up.
pub proof fn law_scalar_is_read(v: ReaderView, json: Json)
    requires
        value::comes(v, value::tokens_of(json)),
    ensures
        ({
            let x = value::after(v, 1).in_state(ReaderState::Object);
            match json {
                Json::String(text) => {
                    &&& model::read_string(v) == (Reply::Ready(text), x)
                    &&& model::read_nullable_string(v) == (Reply::Ready(Some(text)), x)
                },
                Json::Null => model::read_nullable_string(v) == (
                    Reply::<Option<Seq<char>>>::Ready(None),
                    x,
                ),
                Json::Number(text) => model::read_number_text(v) == (Reply::Ready(text), x),
                Json::Boolean(b) => model::read_boolean(v) == (Reply::Ready(b), x),
                _ => true,
            }
        }),
{
    value::lemma_comes_first(v, TokenView::Null, Seq::empty());
    assert(value::tokens_of(json).len() > 0) by {
        lemma_value_starts(json);
    }
}

/// From before an object, asking for the next entry as often as it has members, and once
/// more, gives every key in order and then the end, right after the object.
pub proof fn law_object_is_walked(readers: Seq<ReaderView>, members: Seq<Member>)
    requires
        walk(readers, members),
        readers[0].sound(),
        readers[0].stage is Idle,
        readers[0].state is Start,
        value::comes(readers[0], value::tokens_of(Json::Object(members))),
    ensures
        forall|i: int|
            0 <= i < members.len() ==> model::next_object_entry(#[trigger] readers[i]).0
                == Reply::Ready(Some(members[i].key)),
        ({
            let (reply, end) = model::next_object_entry(readers[members.len() as int]);
            &&& reply == Reply::<Option<Seq<char>>>::Ready(None)
            &&& end == value::dressed(
                value::after(readers[0], value::tokens_of(Json::Object(members)).len()),
                ReaderState::Object,
                Stage::Idle,
                end.preserve,
            )
        }),
{
    let lead = seq![TokenView::StartObject];
    assert(lead + value::body(members) =~= value::tokens_of(Json::Object(members)));
    law_entries_come_in_order(readers, lead, members);
}

/// From before an array, asking for the next item as often as it has items, and once more,
/// gives every item in order and then the end, right after the array.
pub proof fn law_array_is_streamed(readers: Seq<ReaderView>, items: Seq<Json>)
    requires
        stream(readers, items),
        readers[0].sound(),
        readers[0].stage is Idle,
        value::comes(readers[0], value::tokens_of(Json::Array(items))),
    ensures
        forall|i: int|
            0 <= i < items.len() ==> {
                &&& model::start_array_item(#[trigger] readers[i]).0 == Reply::Ready(true)
                &&& value::comes(
                    model::start_array_item(readers[i]).1,
                    value::tokens_of(items[i]),
                )
            },
        ({
            let (reply, end) = model::start_array_item(readers[items.len() as int]);
            &&& reply == Reply::Ready(false)
            &&& end == value::dressed(
                value::after(readers[0], value::tokens_of(Json::Array(items)).len()),
                ReaderState::Object,
                Stage::Idle,
                end.preserve,
            )
        }),
{
    let lead = seq![TokenView::StartArray];
    assert(lead + array_body(items) =~= value::tokens_of(Json::Array(items)));
    law_items_come_in_order(readers, lead, items);
}

} // verus!
