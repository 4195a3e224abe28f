//! Laws of the reader's operations.
use vstd::prelude::*;

use crate::chunk_laws;
use crate::grammar;
use crate::grammar::Lexed;
use crate::model;
use crate::model::{ReaderState, ReaderView, Reply, Stage};
use crate::object;
use crate::place::Place;
use crate::token::TokenView;

verus! {

/// The depth never falls below zero.
pub proof fn law_depth_is_counted(v: ReaderView)
    requires
        v.sound(),
        v.depth >= 0,
    ensures
        model::next_token(v).1.depth >= 0,
{
    reveal(model::next_token);
    Place::Start.lemma_punctuation(v.input(), 0, v.depth);
}

/// A token changes the depth by one at most.
proof fn lemma_depth_step(v: ReaderView)
    ensures
        v.depth - 1 <= model::next_token(v).1.depth <= v.depth + 1,
        model::next_token(v).0 matches Reply::Ready(Some(token)) ==> model::next_token(v).1.depth
            == model::depth_after(v.depth, token),
{
    reveal(model::next_token);
}

proof fn lemma_skip_rest(v: ReaderView, floor: int)
    requires
        v.sound(),
        v.depth >= floor,
    ensures
        model::skip_rest(v, floor).0 is Ready ==> {
            &&& model::skip_rest(v, floor).1.depth == floor
            &&& model::skip_rest(v, floor).1.state is Object
            &&& model::skip_rest(v, floor).1.at_rest() || v.seen.len() > 0
        },
    decreases v.input().len(),
{
    if v.depth > floor {
        model::lemma_next_token_shrinks(v);
        lemma_depth_step(v);
        if model::next_token(v).0 is Ready {
            lemma_skip_rest(model::next_token(v).1, floor);
        }
    }
}

/// A skipped value leaves as many brackets open as there were before it, and the reader
/// before the next key.
pub proof fn law_skip_value_is_balanced(v: ReaderView)
    requires
        v.sound(),
        v.stage is Idle,
    ensures
        model::skip_value(v).0 is Ready ==> {
            &&& model::skip_value(v).1.depth == v.depth
            &&& model::skip_value(v).1.state is Object
            &&& model::skip_value(v).1.at_rest()
        },
{
    model::lemma_next_token_shrinks(v);
    lemma_depth_step(v);
    if model::next_token(v).0 is Ready {
        let w = model::next_token(v).1.in_stage(Stage::Skip { floor: v.depth });
        if w.depth >= v.depth {
            lemma_skip_rest(w, v.depth);
        }
    }
}

/// A skipped object leaves as many brackets open as there were before it, and the
/// reader before the next key.
pub proof fn law_skip_object_is_balanced(v: ReaderView)
    requires
        v.sound(),
        v.stage is Idle,
    ensures
        model::skip_object(v).0 is Ready ==> {
            &&& model::skip_object(v).1.depth == v.depth
            &&& model::skip_object(v).1.state is Object
            &&& model::skip_object(v).1.at_rest()
        },
{
    model::lemma_next_token_shrinks(v);
    lemma_depth_step(v);
    if model::start_object(v).0 is Ready {
        let w = model::start_object(v).1.in_stage(Stage::Skip { floor: v.depth });
        lemma_skip_rest(w, v.depth);
    }
}

/// What can be skipped as an object can be skipped as a value, to the same effect.
pub proof fn law_object_is_a_value(v: ReaderView)
    requires
        v.sound(),
        v.may_skip(),
        model::skip_object(v).0 is Ready,
    ensures
        model::skip_value(v) == model::skip_object(v),
{
    if v.stage is Idle {
        lemma_skip_forgets_state(v);
    }
}

/// Whether the state is reset at the start of a skip or at its end is the same once it
/// is done.
proof fn lemma_skip_forgets_state(v: ReaderView)
    requires
        v.sound(),
        v.stage is Idle,
        model::skip_object(v).0 is Ready,
    ensures
        model::skip_value(v) == model::skip_object(v),
{
    model::lemma_next_token_shrinks(v);
    let w = model::next_token(v).1.in_stage(Stage::Skip { floor: v.depth });
    lemma_skip_rest_forgets_state(w, v.depth, ReaderState::Object);
}

proof fn lemma_skip_rest_forgets_state(v: ReaderView, floor: int, state: ReaderState)
    requires
        v.sound(),
    ensures
        model::skip_rest(v.in_state(state), floor).0 is Ready ==> model::skip_rest(v, floor)
            == model::skip_rest(v.in_state(state), floor),
    decreases v.input().len(),
{
    let other = v.in_state(state);
    assert(other.input() == v.input());
    if v.depth > floor {
        reveal(model::next_token);
        model::lemma_next_token_shrinks(v);
        model::lemma_next_token_shrinks(other);
        assert(model::next_token(other).0 == model::next_token(v).0);
        assert(model::next_token(other).1 == model::next_token(v).1.in_state(state));
        if model::next_token(v).0 is Ready {
            lemma_skip_rest_forgets_state(model::next_token(v).1, floor, state);
        }
    }
}

/// A value that is not read is skipped when the next entry is asked for: it is as if it
/// had been skipped before.
pub proof fn law_unread_value_is_skipped(v: ReaderView)
    requires
        v.sound(),
        v.stage is Idle,
        v.state is Value,
        model::skip_value(v).0 is Ready,
    ensures
        model::next_object_entry(v) == model::next_object_entry(model::skip_value(v).1),
{
    law_skip_value_is_balanced(v);
}

proof fn lemma_read_key(v: ReaderView)
    requires
        v.sound(),
    ensures
        model::read_key(v).1.state == v.state,
        model::read_key(v).1.stage == v.stage,
        model::read_key(v).0 matches Reply::Ready(Some(_)) ==> model::read_key(v).1.depth
            == v.depth,
        model::read_key(v).0 matches Reply::Ready(None) ==> model::read_key(v).1.depth == v.depth
            - 1,
    decreases v.input().len(),
{
    model::lemma_next_token_shrinks(v);
    lemma_depth_step(v);
    if model::next_token(v).0 == Reply::Ready(Some(TokenView::EndObjectOrListItem)) {
        lemma_read_key(model::next_token(v).1);
    }
}

/// After an entry's key its value is next, at the depth of the object; after the last
/// entry the object is left.
pub proof fn law_entry_is_at_its_value(v: ReaderView)
    requires
        v.sound(),
        v.stage is Idle,
    ensures
        model::next_object_entry(v).0 matches Reply::Ready(found) ==> {
            let w = model::next_object_entry(v).1;
            let depth = if v.state is Start {
                v.depth + 1
            } else {
                v.depth
            };
            match found {
                Some(_) => w.state is Value && w.depth == depth,
                None => w.state is Object && w.depth == depth - 1,
            }
        },
{
    chunk_laws::lemma_reach_key_ready(v);
    model::lemma_next_token_shrinks(v);
    lemma_depth_step(v);
    law_skip_value_is_balanced(v);
    if model::reach_key(v).0 is Ready {
        lemma_read_key(model::reach_key(v).1);
    }
}

proof fn lemma_seek_key(v: ReaderView, target: Seq<char>, floor: int)
    requires
        v.sound(),
    ensures
        model::seek_key(v, target, floor).0 is Ready ==> {
            let w = model::seek_key(v, target, floor).1;
            w.state is Value && w.depth == floor && w.at_rest()
        },
    decreases v.input().len(),
{
    model::lemma_next_token_shrinks(v);
    if let Reply::Ready(Some(_)) = model::next_token(v).0 {
        lemma_seek_key(model::next_token(v).1, target, floor);
    }
}

/// A key that is found is one of the current object and not of an object inside it, and
/// its value is next.
pub proof fn law_key_is_at_its_value(v: ReaderView, target: Seq<char>)
    requires
        v.sound(),
        v.stage is Idle,
    ensures
        model::skip_to_key(v, target).0 is Ready ==> {
            let w = model::skip_to_key(v, target).1;
            &&& w.state is Value
            &&& w.depth == (if v.state is Start {
                v.depth + 1
            } else {
                v.depth
            })
            &&& w.at_rest()
        },
{
    chunk_laws::lemma_reach_key_ready(v);
    model::lemma_next_token_shrinks(v);
    lemma_depth_step(v);
    law_skip_value_is_balanced(v);
    if model::reach_key(v).0 is Ready {
        let w = model::reach_key(v).1;
        lemma_seek_key(w.in_stage(Stage::SkipToKey { floor: w.depth }), target, w.depth);
    }
}

/// A key that is the first among those of the current object to come is what a search
/// for it finds.
pub proof fn law_next_key_is_found(v: ReaderView, target: Seq<char>)
    requires
        v.sound(),
        v.stage is Idle,
        v.state is Object,
        model::next_token(v).0 == Reply::Ready(Some(TokenView::Key(target))),
    ensures
        model::skip_to_key(v, target) == (
            Reply::<()>::Ready(()),
            model::next_token(v).1.in_state(ReaderState::Value),
        ),
        model::next_object_entry(v) == (
            Reply::Ready(Some(target)),
            model::next_token(v).1.in_state(ReaderState::Value),
        ),
{
    let w = v.in_stage(Stage::SkipToKey { floor: v.depth });
    reveal(model::next_token);
    assert(w.input() == v.input());
    model::lemma_next_token_shrinks(v);
    lemma_depth_step(v);
}

/// A value that was read leaves the reader before the next key.
pub proof fn law_reading_resets_state(v: ReaderView)
    ensures
        model::read_string(v).0 is Ready ==> model::read_string(v).1.state is Object,
        model::read_nullable_string(v).0 is Ready ==> model::read_nullable_string(v).1.state
            is Object,
        model::read_number_text(v).0 is Ready ==> model::read_number_text(v).1.state is Object,
        model::read_boolean(v).0 is Ready ==> model::read_boolean(v).1.state is Object,
        model::start_object(v).0 is Ready ==> model::start_object(v).1.state is Object,
{
}

/// A look uses up no byte and changes nothing but that an end of the stream may have
/// been taken note of; its reply is that of the next token.
pub proof fn law_peek_uses_nothing_up(v: ReaderView)
    requires
        v.sound(),
        v.at_rest(),
    ensures
        model::peek_token(v).0 == model::next_token(v).0,
        model::peek_token(v).0 !is NeedData ==> {
            let w = model::peek_token(v).1;
            w == (ReaderView { ended: w.ended, ..v }) && (w.ended ==> v.ended)
        },
{
    reveal(model::next_token);
    assert(model::begin_peek(v, false).input() == v.input());
    assert(v.seen =~= Seq::<Option<u8>>::empty());
}

/// A token that was looked at is what comes next, however many reads the look took,
/// where the end of the stream has no part in it.
pub proof fn law_peeked_token_is_next(v: ReaderView)
    requires
        v.sound(),
        v.coherent(),
        v.stage is Peek,
        grammar::lex(v.input(), v.depth) matches Lexed::Token { len, .. } && forall|k: int|
            0 <= k < len ==> (#[trigger] v.input()[k]) is Some,
    ensures
        model::peek_token(v).0 == model::next_token(v).0,
        model::next_token(model::peek_token(v).1).0 == model::peek_token(v).0,
{
    reveal(model::next_token);
    chunk_laws::lemma_found_beyond_seen(v);
    let len = grammar::lex(v.input(), v.depth)->Token_len;
    chunk_laws::lemma_peek_restores(v, len);
}

/// An array without items is left at once.
pub proof fn law_empty_array_has_no_item(v: ReaderView)
    requires
        v.sound(),
        v.stage is Idle,
        model::next_token(v).0 == Reply::Ready(Some(TokenView::StartArray)),
        model::next_token(model::next_token(v).1).0 == Reply::Ready(Some(TokenView::EndArray)),
    ensures
        model::start_array_item(v).0 == Reply::Ready(false),
        model::start_array_item(v).1.state is Object,
        model::start_array_item(v).1.depth == v.depth,
        model::start_array_item(v).1.at_rest(),
{
    let w = model::next_token(v).1;
    model::lemma_next_token_shrinks(v);
    lemma_depth_step(v);
    law_peek_uses_nothing_up(w);
    let look = model::begin_peek(w, true);
    assert(look.input() == w.input());
    model::lemma_holds_nothing(look);
    chunk_laws::lemma_end_seen_is_taken(look);
    assert(model::next_token(look).0 == model::next_token(w).0) by {
        reveal(model::next_token);
    }
    let back = model::peek_rest(look, w.position, w.preserve).1;
    assert(back.sound()) by {
        reveal(model::next_token);
    }
    model::lemma_next_token_shrinks(back);
    lemma_depth_step(back);
    lemma_depth_step(look);
}

proof fn lemma_gather(v: ReaderView, floor: int, start: int)
    requires
        v.sound(),
        v.depth >= floor,
        0 <= start <= v.position,
    ensures
        model::gather(v, floor, start).0 !is NeedData ==> {
            let (reply, w) = model::gather(v, floor, start);
            &&& w.buffer == v.buffer
            &&& v.position <= w.position <= w.buffer.len()
            &&& !w.preserve
            &&& reply is Ready ==> {
                &&& reply == model::object_reply(
                    object::parsed_object(v.buffer.subrange(start, w.position)),
                    start,
                )
                &&& w.state is Object
                &&& w.depth == floor
            }
        },
    decreases v.input().len(),
{
    if v.depth > floor {
        model::lemma_next_token_shrinks(v);
        lemma_depth_step(v);
        lemma_position_grows(v);
        if let Reply::Ready(Some(_)) = model::next_token(v).0 {
            lemma_gather(model::next_token(v).1, floor, start);
        }
    }
}

proof fn lemma_position_grows(v: ReaderView)
    requires
        v.sound(),
    ensures
        v.position <= model::next_token(v).1.position <= v.buffer.len(),
{
    reveal(model::next_token);
}

/// An object is read only where all of it is there: the bytes that were used up end with
/// its closing brace, the parser is handed just these, and the result is the parser's.
pub proof fn law_object_is_parsed_from_its_bytes(v: ReaderView)
    requires
        v.sound(),
        v.at_rest(),
    ensures
        model::deserialize_object(v).0 matches Reply::Ready(map) ==> {
            let w = model::deserialize_object(v).1;
            &&& v.position <= w.position <= v.buffer.len()
            &&& object::parsed_object(v.buffer.subrange(v.position, w.position)) == Ok::<
                serde_json::Map<String, serde_json::Value>,
                serde_json::Error,
            >(map)
            &&& w.buffer == v.buffer
            &&& w.state is Object
            &&& w.depth == v.depth
            &&& !w.preserve
        },
{
    let u = model::begin_gather(v);
    assert(u.input() == v.input());
    model::lemma_next_token_shrinks(u);
    lemma_depth_step(u);
    lemma_position_grows(u);
    if model::start_object(u).0 is Ready {
        let w = model::start_object(u).1.in_stage(
            Stage::Deserialize { floor: v.depth, start: v.position, opened: true },
        );
        lemma_gather(w, v.depth, v.position);
    }
}

/// Except while an object is gathered or a token is looked at, a read leaves nothing in the
/// buffer but what it brought: what is held does not grow with the stream.
pub proof fn law_used_up_bytes_are_dropped(v: ReaderView, chunk: Seq<u8>)
    requires
        model::fillable(v),
        v.frugal(),
        !(v.stage is Deserialize),
        !(v.stage is Peek),
    ensures
        model::filled(v, chunk).buffer == chunk,
        model::filled(v, chunk).position == 0,
{
    assert(Seq::<u8>::empty() + chunk =~= chunk);
}

/// An object that is read or refused, for whatever reason, ends the keeping of used-up bytes,
/// and so does giving up one that waits; they are kept for as long as it waits.
pub proof fn law_object_ends_keeping(v: ReaderView)
    requires
        v.sound(),
        v.coherent(),
        v.may_deserialize(),
    ensures
        ({
            let (reply, w) = model::deserialize_object(v);
            if reply is NeedData {
                w.preserve && w.stage is Deserialize && !model::cancelled(w).preserve
            } else {
                !w.preserve
            }
        }),
{
    let u = if v.stage is Deserialize {
        v
    } else {
        model::begin_gather(v)
    };
    if let Stage::Deserialize { floor, start, .. } = u.stage {
        model::lemma_next_token_shrinks(u);
        lemma_gather_keeping(u, floor, start);
        if model::start_object(u).0 is Ready {
            let w = model::start_object(u).1.in_stage(
                Stage::Deserialize { floor, start, opened: true },
            );
            lemma_gather_keeping(w, floor, start);
        }
    }
}

proof fn lemma_gather_keeping(v: ReaderView, floor: int, start: int)
    requires
        v.sound(),
    ensures
        ({
            let (reply, w) = model::gather(v, floor, start);
            if reply is NeedData {
                w.preserve == v.preserve && w.stage == v.stage
            } else {
                !w.preserve
            }
        }),
    decreases v.input().len(),
{
    model::lemma_next_token_shrinks(v);
    if model::next_token(v).0 is Ready {
        lemma_gather_keeping(model::next_token(v).1, floor, start);
    }
}

} // verus!
