//! Laws on what the reader holds: how it begins, what a read brings into it, how much of it
//! a token uses up, and what is left when an operation is given up.
use vstd::prelude::*;

use crate::chunk_laws;
use crate::error::ErrorView;
use crate::grammar;
use crate::grammar::{FlawView, Lexed};
use crate::model;
use crate::model::{ReaderState, ReaderView, Reply, Stage};
use crate::operation_laws;
use crate::operation_laws::Operation;
use crate::reader;
use crate::reader::Progress;
use crate::text;
use crate::token;
use crate::token::{JsonToken, TokenView};

verus! {

/// A new reader has read nothing and stands before the outermost value.
pub proof fn law_new_reader_is_empty()
    ensures
        model::fresh() == (ReaderView {
            buffer: Seq::empty(),
            position: 0,
            ended: false,
            seen: Seq::empty(),
            depth: 0,
            state: ReaderState::Start,
            preserve: false,
            stage: Stage::Idle,
        }),
{
}

/// Bytes are events one for one.
pub proof fn law_bytes_are_events(bytes: Seq<u8>)
    ensures
        model::events_of(bytes) == Seq::new(bytes.len(), |k: int| Some(bytes[k])),
{
}

/// What is still to be read: the part of a token that was used up already, the bytes in the
/// buffer behind the position, and the end of the stream if it was found.
pub open spec fn to_read(v: ReaderView) -> Seq<Option<u8>> {
    let bytes = Seq::new(
        (v.buffer.len() - v.position) as nat,
        |k: int| Some(v.buffer[v.position + k]),
    );
    v.seen + bytes + (if v.ended {
        seq![None::<u8>]
    } else {
        Seq::empty()
    })
}

/// The reader behind the first `len` events of what is to be read.
pub open spec fn advanced(v: ReaderView, len: int) -> ReaderView {
    let used = len - v.seen.len();
    let at_end = v.position + used > v.buffer.len();
    ReaderView {
        position: if at_end {
            v.buffer.len() as int
        } else {
            v.position + used
        },
        ended: v.ended && !at_end,
        seen: Seq::empty(),
        ..v
    }
}

/// The next token is the first in what is to be read, and just its events are used up. A
/// bracket that opens or closes counts; a flaw is told with its place in the buffer; and
/// where the token is not complete, all there is is used up and remembered.
pub proof fn law_token_is_the_first_to_be_read(v: ReaderView)
    requires
        v.sound(),
    ensures
        ({
            let (reply, w) = model::next_token(v);
            match grammar::lex(to_read(v), v.depth) {
                Lexed::More => {
                    &&& reply is NeedData
                    &&& w == ReaderView {
                        position: v.buffer.len() as int,
                        ended: false,
                        seen: to_read(v),
                        ..v
                    }
                },
                Lexed::End { len } => reply == Reply::Ready(None::<TokenView>) && w == advanced(
                    v,
                    len,
                ),
                Lexed::Token { token, len } => {
                    &&& reply == Reply::Ready(Some(token))
                    &&& w == ReaderView { depth: w.depth, ..advanced(v, len) }
                    &&& token is StartObject || token is StartArray ==> w.depth == v.depth + 1
                    &&& token is EndObject || token is EndArray ==> w.depth == v.depth - 1
                    &&& !(token is StartObject || token is StartArray || token is EndObject
                        || token is EndArray) ==> w.depth == v.depth
                },
                Lexed::Flaw { flaw, len } => {
                    &&& w == advanced(v, len)
                    &&& reply == Reply::<Option<TokenView>>::Failed(
                        match flaw {
                            FlawView::Json { error, back } => ErrorView::JsonError {
                                error,
                                position: if w.position >= back {
                                    w.position - back
                                } else {
                                    0
                                },
                            },
                            FlawView::Unexpected { expected, found } => ErrorView::UnexpectedToken {
                                expected,
                                found,
                            },
                        },
                    )
                },
            }
        }),
{
    reveal(model::next_token);
    assert(to_read(v) =~= v.input());
    chunk_laws::lemma_found_beyond_seen(v);
}

/// A read brings its bytes behind those that are kept, or in the place of those that are
/// not. One that brings none is the end of the stream.
pub proof fn law_read_is_taken_in(v: ReaderView, chunk: Seq<u8>)
    ensures
        ({
            let w = model::filled(v, chunk);
            &&& v.preserve ==> w.buffer == v.buffer + chunk && w.position == v.position
            &&& !v.preserve ==> w.buffer == chunk && w.position == 0
            &&& w == ReaderView {
                buffer: w.buffer,
                position: w.position,
                ended: chunk.len() == 0,
                ..v
            }
        }),
{
    assert(Seq::<u8>::empty() + chunk =~= chunk);
}

/// Room for a read is made by dropping what the buffer holds, unless that is kept; nothing
/// else changes.
pub proof fn law_room_is_made_by_dropping(v: ReaderView)
    ensures
        v.preserve ==> model::with_room(v) == v,
        !v.preserve ==> model::with_room(v) == (ReaderView {
            buffer: Seq::empty(),
            position: 0,
            ..v
        }),
{
}

/// A read is taken in just where no unread byte would be lost by it; where one would, the
/// error tells the position and how much the buffer holds.
pub proof fn law_unread_bytes_are_not_lost(v: ReaderView)
    ensures
        model::fillable(v) <==> v.preserve || v.position == v.buffer.len(),
        model::not_fillable(v) == (ErrorView::InternalState {
            message: "fill_buffer called with an unconsumed buffer: position="@ + text::numeral(
                v.position as nat,
                10,
            ) + ", buffer.len="@ + text::numeral(v.buffer.len(), 10),
        }),
{
}

/// An operation that is given up leaves the depth, the state and the bytes as they are. The
/// token that it was in is dropped, except that a look goes back to where it began; and what
/// was kept for it is kept no longer.
pub proof fn law_giving_up_drops_the_token(v: ReaderView)
    ensures
        model::cancelled(v) == (ReaderView {
            position: if v.stage is Peek {
                v.stage->at
            } else {
                v.position
            },
            seen: Seq::empty(),
            preserve: match v.stage {
                Stage::Peek { kept, .. } => kept,
                Stage::Deserialize { .. } => false,
                _ => v.preserve,
            },
            stage: Stage::Idle,
            ..v
        }),
{
}

/// A reader at rest may be asked for anything.
pub proof fn law_any_operation_may_follow(v: ReaderView, operation: Operation)
    requires
        v.stage is Idle,
        v.seen.len() == 0,
    ensures
        operation_laws::may(operation, v),
        v.at_rest(),
{
}

/// There is room for what may come as long as the brackets among the unread bytes can be
/// counted and the buffer can grow.
pub proof fn law_room_is_a_machine_limit(v: ReaderView, len: int)
    ensures
        v.stage !is Peek ==> (v.has_room() <==> v.depth + v.buffer.len() - v.position
            <= usize::MAX),
        v.stage matches Stage::Peek { at, .. } ==> (v.has_room() <==> v.depth + v.buffer.len() - at
            <= usize::MAX),
        v.can_hold(len) <==> 2 * (v.buffer.len() + len + 8192) <= isize::MAX,
{
}

/// What an operation returns is what its reply says: no result is taken for another.
pub proof fn law_reply_is_the_result<T, V>(progress: Progress<T>, view: spec_fn(T) -> V)
    ensures
        reader::reply(progress, view) is NeedData <==> progress is NeedData,
        progress matches Progress::Ready(Ok(value)) ==> reader::reply(progress, view)
            == Reply::Ready(view(value)),
        progress matches Progress::Ready(Err(error)) ==> reader::reply(progress, view)
            == Reply::<V>::Failed(error@),
{
}

/// A text or a token that may be missing is missing just where its view is.
pub proof fn law_missing_is_missing(text: Option<String>, found: Option<JsonToken>)
    ensures
        reader::maybe_text(text) is None <==> text is None,
        text matches Some(t) ==> reader::maybe_text(text) == Some(t@),
        token::maybe(found) is None <==> found is None,
        found matches Some(t) ==> token::maybe(found) == Some(t@),
{
}

/// A token's view is of its own kind and has its own text.
pub proof fn law_token_is_what_it_shows(t: JsonToken)
    ensures
        t is StartObject <==> t@ is StartObject,
        t is EndObjectOrListItem <==> t@ is EndObjectOrListItem,
        t is EndObject <==> t@ is EndObject,
        t is StartArray <==> t@ is StartArray,
        t is EndArray <==> t@ is EndArray,
        t is Null <==> t@ is Null,
        t matches JsonToken::Key(text) ==> t@ == TokenView::Key(text@),
        t matches JsonToken::String(text) ==> t@ == TokenView::String(text@),
        t matches JsonToken::Number(text) ==> t@ == TokenView::Number(text@),
        t matches JsonToken::Boolean(b) ==> t@ == TokenView::Boolean(b),
{
}

} // verus!
