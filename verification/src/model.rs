//! The reader as mathematics: what it holds, and what each of its operations
//! replies and leaves behind.
use vstd::prelude::*;

use crate::error::ErrorView;
use crate::grammar;
use crate::grammar::{FlawView, Lexed};
use crate::object;
use crate::place::Place;
use crate::text;
use crate::token;
use crate::token::TokenView;

verus! {

/// The size that the buffer starts with and grows by.
pub const INTERNAL_BUFFER_SIZE: usize = 8192;

/// Where the reader stands in the current object.
#[derive(Debug, Clone, Copy, PartialEq, Eq, Structural)]
pub enum ReaderState {
    /// Initial state.
    Start,
    /// Inside an object, expecting a key or `}`.
    Object,
    /// A key was read, its value is next.
    Value,
}

/// An operation of several tokens that waits for data, with what it remembers.
pub enum Stage {
    /// No such operation waits.
    Idle,
    /// A value is being skipped until the depth is back at `floor`.
    Skip { floor: int },
    /// A key is being looked for in the object at depth `floor`.
    SkipToKey { floor: int },
    /// The object that starts at `start` is being gathered until the depth is back
    /// at `floor`; its brace has been `opened`.
    Deserialize { floor: int, start: int, opened: bool },
    /// The token at `at` is being looked at; the buffer was `kept` before that.
    /// `item` tells that an array's first item is looked for.
    Peek { at: int, kept: bool, item: bool },
}

/// What an operation replies.
pub enum Reply<T> {
    /// The operation waits for the next read.
    NeedData,
    Ready(T),
    Failed(ErrorView),
}

/// What the reader holds.
#[verifier::ext_equal]
pub struct ReaderView {
    /// The bytes in the buffer.
    pub buffer: Seq<u8>,
    /// How many of them are used up.
    pub position: int,
    /// A read found the end of the stream, and nothing has taken note of it yet.
    pub ended: bool,
    /// The part of the current token that has been used up.
    pub seen: Seq<Option<u8>>,
    /// How many brackets are open.
    pub depth: int,
    pub state: ReaderState,
    /// Used-up bytes stay in the buffer.
    pub preserve: bool,
    pub stage: Stage,
}

/// Bytes as events.
pub open spec fn events_of(bytes: Seq<u8>) -> Seq<Option<u8>> {
    Seq::new(bytes.len(), |i: int| Some(bytes[i]))
}

/// The bytes among events.
pub open spec fn bytes_of(events: Seq<Option<u8>>) -> Seq<u8>
    decreases events.len(),
{
    if events.len() == 0 {
        Seq::empty()
    } else {
        let front = bytes_of(events.drop_last());
        match events.last() {
            Some(b) => front.push(b),
            None => front,
        }
    }
}

/// Bytes that follow events are the last of their bytes.
pub proof fn lemma_bytes_of_append(events: Seq<Option<u8>>, bytes: Seq<u8>)
    ensures
        bytes_of(events + events_of(bytes)) == bytes_of(events) + bytes,
    decreases bytes.len(),
{
    let all = events + events_of(bytes);
    if bytes.len() == 0 {
        assert(all =~= events);
        assert(bytes_of(events) + bytes =~= bytes_of(events));
    } else {
        lemma_bytes_of_append(events, bytes.drop_last());
        assert(all.drop_last() =~= events + events_of(bytes.drop_last()));
        assert(bytes_of(events) + bytes =~= (bytes_of(events) + bytes.drop_last()).push(
            bytes.last(),
        ));
    }
}

impl ReaderView {
    /// The buffer is not overrun, and what has been used up of a token is not the
    /// whole of it.
    pub open spec fn sound(self) -> bool {
        &&& 0 <= self.position <= self.buffer.len()
        &&& grammar::lex(self.seen, self.depth) is More
    }

    /// How many of the used-up bytes belong to the current token.
    pub open spec fn lag(self) -> int {
        bytes_of(self.seen).len() as int
    }

    /// The current token's bytes are the last of those used up in the buffer.
    pub open spec fn holds_seen(self) -> bool {
        &&& self.lag() <= self.position
        &&& self.buffer.subrange(self.position - self.lag(), self.position) == bytes_of(self.seen)
    }

    /// A value that is being skipped or gathered has not ended.
    pub open spec fn inside(self) -> bool {
        match self.stage {
            Stage::Skip { floor } => self.depth > floor,
            Stage::Deserialize { floor, opened, .. } => opened ==> self.depth > floor,
            _ => true,
        }
    }

    /// What a waiting operation remembers fits what the buffer holds.
    pub open spec fn coherent(self) -> bool {
        match self.stage {
            Stage::Skip { .. } => self.seen.len() > 0 ==> self.inside(),
            Stage::Deserialize { start, .. } => {
                &&& self.preserve
                &&& self.holds_seen()
                &&& 0 <= start <= self.position - self.lag()
                &&& self.seen.len() > 0 ==> self.inside()
            },
            Stage::Peek { at, .. } => {
                &&& self.preserve
                &&& self.holds_seen()
                &&& at == self.position - self.lag()
            },
            _ => true,
        }
    }

    /// Where the bytes begin that may still open brackets.
    pub open spec fn unread_from(self) -> int {
        match self.stage {
            Stage::Peek { at, .. } => at,
            _ => self.position,
        }
    }

    /// However many brackets the unread bytes open, their number can be counted.
    pub open spec fn has_room(self) -> bool {
        self.depth + (self.buffer.len() - self.unread_from()) <= usize::MAX
    }

    /// The buffer can grow by `len` bytes and by the size that it is enlarged by, even if
    /// its memory is doubled for that.
    pub open spec fn can_hold(self, len: int) -> bool {
        2 * (self.buffer.len() + len + INTERNAL_BUFFER_SIZE) <= isize::MAX
    }

    /// No operation waits and no token is half read.
    pub open spec fn at_rest(self) -> bool {
        self.stage is Idle && self.seen.len() == 0
    }

    /// A value may be skipped, or is being skipped.
    pub open spec fn may_skip(self) -> bool {
        self.stage is Idle || self.stage is Skip
    }

    /// The next entry may be asked for: if anything waits, it is the skipping of the
    /// value before it.
    pub open spec fn may_enter(self) -> bool {
        self.stage is Idle || (self.stage is Skip && self.state is Value)
    }

    /// A key may be looked for, or is being looked for.
    pub open spec fn may_seek(self) -> bool {
        self.may_enter() || self.stage is SkipToKey
    }

    /// The next token may be looked at, or is being looked at.
    pub open spec fn may_peek(self) -> bool {
        self.at_rest() || (self.stage matches Stage::Peek { item, .. } && !item)
    }

    /// The next item may be asked for, or an array's first item is being looked for.
    pub open spec fn may_start_item(self) -> bool {
        self.stage is Idle || (self.stage matches Stage::Peek { item, .. } && item)
    }

    /// An object may be read whole, or is being gathered.
    pub open spec fn may_deserialize(self) -> bool {
        self.at_rest() || self.stage is Deserialize
    }

    /// The events that have arrived and are not used up.
    pub open spec fn feed(self) -> Seq<Option<u8>> {
        events_of(self.buffer.skip(self.position)) + (if self.ended {
            seq![None::<u8>]
        } else {
            Seq::empty()
        })
    }

    /// The current token and all that has arrived after it.
    pub open spec fn input(self) -> Seq<Option<u8>> {
        self.seen + self.feed()
    }

    /// The reader after the first `n` events of its input.
    pub open spec fn past(self, n: int) -> ReaderView {
        let used = if n > self.seen.len() {
            n - self.seen.len()
        } else {
            0
        };
        let unread = self.buffer.len() - self.position;
        ReaderView {
            position: if used <= unread {
                self.position + used
            } else {
                self.buffer.len() as int
            },
            ended: self.ended && used <= unread,
            seen: Seq::empty(),
            ..self
        }
    }

    /// The reader when all of its input is part of a token.
    pub open spec fn exhausted(self) -> ReaderView {
        ReaderView {
            position: self.buffer.len() as int,
            ended: false,
            seen: self.input(),
            ..self
        }
    }

    pub open spec fn in_state(self, state: ReaderState) -> ReaderView {
        ReaderView { state, ..self }
    }

    pub open spec fn in_stage(self, stage: Stage) -> ReaderView {
        ReaderView { stage, ..self }
    }

    /// The reader with no operation waiting.
    pub open spec fn idle(self) -> ReaderView {
        self.in_stage(Stage::Idle)
    }

    /// The reader with no operation waiting and its used-up bytes no longer kept.
    pub open spec fn let_go(self) -> ReaderView {
        ReaderView { preserve: false, ..self.idle() }
    }

    /// Used-up bytes are kept only while an object is gathered or a token is looked at.
    pub open spec fn frugal(self) -> bool {
        match self.stage {
            Stage::Deserialize { .. } => true,
            Stage::Peek { kept, .. } => !kept,
            _ => !self.preserve,
        }
    }
}

/// The event after the first `n`.
pub proof fn lemma_next_event(v: ReaderView, n: int)
    requires
        v.sound(),
        v.seen.len() <= n <= v.input().len(),
    ensures
        v.past(n).sound(),
        if v.past(n).position < v.buffer.len() {
            &&& n < v.input().len()
            &&& v.input()[n] == Some(v.buffer[v.past(n).position])
            &&& v.past(n + 1) == (ReaderView { position: v.past(n).position + 1, ..v.past(n) })
        } else if v.past(n).ended {
            &&& n < v.input().len()
            &&& v.input()[n] is None
            &&& v.past(n + 1) == (ReaderView { ended: false, ..v.past(n) })
        } else {
            n == v.input().len()
        },
{
}

/// Between tokens, nothing has to be held of one.
pub proof fn lemma_holds_nothing(v: ReaderView)
    requires
        v.sound(),
        v.seen.len() == 0,
    ensures
        v.lag() == 0,
        v.holds_seen(),
{
    assert(v.buffer.subrange(v.position, v.position) =~= Seq::<u8>::empty());
}

/// A waiting operation goes on remembering what the buffer holds.
pub proof fn lemma_exhausted_coherent(v: ReaderView)
    requires
        v.sound(),
        v.coherent(),
        v.inside(),
    ensures
        v.exhausted().coherent(),
        v.stage is Deserialize || v.stage is Peek ==> v.exhausted().position - v.exhausted().lag()
            == v.position - v.lag(),
{
    if v.stage is Deserialize || v.stage is Peek {
        let unread = v.buffer.skip(v.position);
        let arrived = v.seen + events_of(unread);
        lemma_bytes_of_append(v.seen, unread);
        assert(bytes_of(v.seen) + unread =~= v.buffer.subrange(
            v.position - v.lag(),
            v.buffer.len() as int,
        ));
        if v.ended {
            assert(v.input().drop_last() =~= arrived);
        } else {
            assert(v.input() =~= arrived);
        }
    }
}

/// The error for a flaw found when the reader stands at `position`.
pub open spec fn error_at(flaw: FlawView, position: int) -> ErrorView {
    match flaw {
        FlawView::Json { error, back } => ErrorView::JsonError {
            error,
            position: if back <= position {
                position - back
            } else {
                0
            },
        },
        FlawView::Unexpected { expected, found } => ErrorView::UnexpectedToken { expected, found },
    }
}

/// The error for a token other than those expected.
pub open spec fn unexpected(expected: Seq<char>, found: Option<TokenView>) -> ErrorView {
    ErrorView::UnexpectedToken { expected, found: token::found_text(found) }
}

/// The depth after a token.
pub open spec fn depth_after(depth: int, token: TokenView) -> int {
    match token {
        TokenView::StartObject | TokenView::StartArray => depth + 1,
        TokenView::EndObject | TokenView::EndArray => depth - 1,
        _ => depth,
    }
}

/// The next token is used up.
#[verifier::opaque]
pub open spec fn next_token(v: ReaderView) -> (Reply<Option<TokenView>>, ReaderView) {
    match grammar::lex(v.input(), v.depth) {
        Lexed::More => (Reply::NeedData, v.exhausted()),
        Lexed::End { len } => (Reply::Ready(None), v.past(len)),
        Lexed::Token { token, len } => (
            Reply::Ready(Some(token)),
            ReaderView { depth: depth_after(v.depth, token), ..v.past(len) },
        ),
        Lexed::Flaw { flaw, len } => (
            Reply::Failed(error_at(flaw, v.past(len).position)),
            v.past(len),
        ),
    }
}

/// A token leaves less input, and the buffer, the state and the waiting operation as
/// they are.
pub proof fn lemma_next_token_shrinks(v: ReaderView)
    requires
        v.sound(),
    ensures
        next_token(v).1.sound(),
        next_token(v).1.buffer == v.buffer,
        next_token(v).1.state == v.state,
        next_token(v).1.preserve == v.preserve,
        next_token(v).1.stage == v.stage,
        next_token(v).0 !is NeedData ==> next_token(v).1.seen.len() == 0,
        next_token(v).0 matches Reply::Ready(_) ==> next_token(v).1.input().len() < v.input().len(),
{
    reveal(next_token);
    Place::Start.lemma_bounds(v.input(), 0, v.depth);
}

/// An object is entered.
pub open spec fn start_object(v: ReaderView) -> (Reply<()>, ReaderView) {
    match next_token(v) {
        (Reply::Ready(Some(TokenView::StartObject)), w) => (
            Reply::Ready(()),
            w.in_state(ReaderState::Object),
        ),
        (Reply::Ready(found), w) => (Reply::Failed(unexpected("{"@, found)), w),
        (Reply::Failed(error), w) => (Reply::Failed(error), w),
        (Reply::NeedData, w) => (Reply::NeedData, w),
    }
}

/// A string is read.
pub open spec fn read_string(v: ReaderView) -> (Reply<Seq<char>>, ReaderView) {
    match next_token(v) {
        (Reply::Ready(Some(TokenView::String(text))), w) => (
            Reply::Ready(text),
            w.in_state(ReaderState::Object),
        ),
        (Reply::Ready(found), w) => (Reply::Failed(unexpected("string"@, found)), w),
        (Reply::Failed(error), w) => (Reply::Failed(error), w),
        (Reply::NeedData, w) => (Reply::NeedData, w),
    }
}

/// A string or null is read.
pub open spec fn read_nullable_string(v: ReaderView) -> (Reply<Option<Seq<char>>>, ReaderView) {
    match next_token(v) {
        (Reply::Ready(Some(TokenView::String(text))), w) => (
            Reply::Ready(Some(text)),
            w.in_state(ReaderState::Object),
        ),
        (Reply::Ready(Some(TokenView::Null)), w) => (
            Reply::Ready(None),
            w.in_state(ReaderState::Object),
        ),
        (Reply::Ready(found), w) => (Reply::Failed(unexpected("string"@, found)), w),
        (Reply::Failed(error), w) => (Reply::Failed(error), w),
        (Reply::NeedData, w) => (Reply::NeedData, w),
    }
}

/// The text of a number is read.
pub open spec fn read_number_text(v: ReaderView) -> (Reply<Seq<char>>, ReaderView) {
    match next_token(v) {
        (Reply::Ready(Some(TokenView::Number(text))), w) => (
            Reply::Ready(text),
            w.in_state(ReaderState::Object),
        ),
        (Reply::Ready(found), w) => (Reply::Failed(unexpected("number"@, found)), w),
        (Reply::Failed(error), w) => (Reply::Failed(error), w),
        (Reply::NeedData, w) => (Reply::NeedData, w),
    }
}

/// The error for a number that the caller's type cannot hold.
pub open spec fn unparsed(number: Seq<char>, reason: Seq<char>, position: int) -> ErrorView {
    ErrorView::JsonError { error: "Can't parse number "@ + number + ": "@ + reason, position }
}

/// A boolean is read.
pub open spec fn read_boolean(v: ReaderView) -> (Reply<bool>, ReaderView) {
    match next_token(v) {
        (Reply::Ready(Some(TokenView::Boolean(b))), w) => (
            Reply::Ready(b),
            w.in_state(ReaderState::Object),
        ),
        (Reply::Ready(found), w) => (Reply::Failed(unexpected("boolean"@, found)), w),
        (Reply::Failed(error), w) => (Reply::Failed(error), w),
        (Reply::NeedData, w) => (Reply::NeedData, w),
    }
}

/// The next key is read, or the end of the object; commas are passed over.
pub open spec fn read_key(v: ReaderView) -> (Reply<Option<Seq<char>>>, ReaderView)
    decreases v.input().len(),
    when v.sound()
{
    proof {
        lemma_next_token_shrinks(v);
    }
    match next_token(v) {
        (Reply::Ready(Some(TokenView::Key(key))), w) => (Reply::Ready(Some(key)), w),
        (Reply::Ready(Some(TokenView::EndObject)), w) => (Reply::Ready(None), w),
        (Reply::Ready(Some(TokenView::EndObjectOrListItem)), w) => read_key(w),
        (Reply::Ready(found), w) => (Reply::Failed(unexpected("key or end of object"@, found)), w),
        (Reply::Failed(error), w) => (Reply::Failed(error), w),
        (Reply::NeedData, w) => (Reply::NeedData, w),
    }
}

/// The stream ended inside a value.
pub open spec fn value_cut_short(position: int) -> ErrorView {
    ErrorView::JsonError { error: "Unexpected EOF while skipping value"@, position }
}

/// Tokens are passed over until no more than `floor` brackets are open.
pub open spec fn skip_rest(v: ReaderView, floor: int) -> (Reply<()>, ReaderView)
    decreases v.input().len(),
    when v.sound()
{
    if v.depth <= floor {
        (Reply::Ready(()), v.in_state(ReaderState::Object).idle())
    } else {
        proof {
            lemma_next_token_shrinks(v);
        }
        match next_token(v) {
            (Reply::Ready(Some(_)), w) => skip_rest(w, floor),
            (Reply::Ready(None), w) => (Reply::Failed(value_cut_short(w.position)), w.idle()),
            (Reply::Failed(error), w) => (Reply::Failed(error), w.idle()),
            (Reply::NeedData, w) => (Reply::NeedData, w),
        }
    }
}

/// A value is passed over, however deep.
pub open spec fn skip_value(v: ReaderView) -> (Reply<()>, ReaderView) {
    match v.stage {
        Stage::Skip { floor } => skip_rest(v, floor),
        _ => match next_token(v) {
            (Reply::Ready(None), w) => (Reply::Failed(value_cut_short(w.position)), w),
            (Reply::Ready(Some(token)), w) => match token {
                TokenView::StartObject | TokenView::StartArray => skip_rest(
                    w.in_stage(Stage::Skip { floor: v.depth }),
                    v.depth,
                ),
                TokenView::String(_)
                | TokenView::Number(_)
                | TokenView::Boolean(_)
                | TokenView::Null => (Reply::Ready(()), w.in_state(ReaderState::Object)),
                _ => (
                    Reply::Failed(
                        ErrorView::UnexpectedToken {
                            expected: "a value"@,
                            found: token::token_text(token),
                        },
                    ),
                    w,
                ),
            },
            (Reply::Failed(error), w) => (Reply::Failed(error), w),
            (Reply::NeedData, w) => (Reply::NeedData, w),
        },
    }
}

/// An object is passed over.
pub open spec fn skip_object(v: ReaderView) -> (Reply<()>, ReaderView) {
    match v.stage {
        Stage::Skip { floor } => skip_rest(v, floor),
        _ => match start_object(v) {
            (Reply::Ready(_), w) => skip_rest(
                w.in_stage(Stage::Skip { floor: v.depth }),
                v.depth,
            ),
            other => other,
        },
    }
}

/// The reader is brought before the next key of the current object: the outermost
/// object is entered, a value that was not read is passed over.
pub open spec fn reach_key(v: ReaderView) -> (Reply<()>, ReaderView) {
    match v.state {
        ReaderState::Start => start_object(v),
        ReaderState::Value => skip_value(v),
        ReaderState::Object => (Reply::Ready(()), v),
    }
}

/// The next entry of the current object is reached.
pub open spec fn next_object_entry(v: ReaderView) -> (Reply<Option<Seq<char>>>, ReaderView) {
    match reach_key(v) {
        (Reply::Ready(_), w) => match read_key(w) {
            (Reply::Ready(Some(key)), x) => (
                Reply::Ready(Some(key)),
                x.in_state(ReaderState::Value),
            ),
            other => other,
        },
        (Reply::Failed(error), w) => (Reply::Failed(error), w),
        (Reply::NeedData, w) => (Reply::NeedData, w),
    }
}

/// The object has no such key.
pub open spec fn key_not_found(position: int) -> ErrorView {
    ErrorView::JsonError { error: "key not found"@, position }
}

/// Tokens are passed over until `target` comes as a key of the object at depth
/// `floor`, or that object ends.
pub open spec fn seek_key(v: ReaderView, target: Seq<char>, floor: int) -> (Reply<()>, ReaderView)
    decreases v.input().len(),
    when v.sound()
{
    proof {
        lemma_next_token_shrinks(v);
    }
    match next_token(v) {
        (Reply::Ready(Some(token)), w) => if w.depth == floor && token == TokenView::Key(target) {
            (Reply::Ready(()), w.in_state(ReaderState::Value).idle())
        } else if w.depth < floor && token == TokenView::EndObject {
            (Reply::Failed(key_not_found(w.position)), w.idle())
        } else {
            seek_key(w, target, floor)
        },
        (Reply::Ready(None), w) => (Reply::Failed(key_not_found(w.position)), w.idle()),
        (Reply::Failed(error), w) => (Reply::Failed(error), w.idle()),
        (Reply::NeedData, w) => (Reply::NeedData, w),
    }
}

/// The value of the key `target` is reached in the current object.
pub open spec fn skip_to_key(v: ReaderView, target: Seq<char>) -> (Reply<()>, ReaderView) {
    match v.stage {
        Stage::SkipToKey { floor } => seek_key(v, target, floor),
        _ => match reach_key(v) {
            (Reply::Ready(_), w) => seek_key(
                w.in_stage(Stage::SkipToKey { floor: w.depth }),
                target,
                w.depth,
            ),
            other => other,
        },
    }
}

/// A look at the next token begins.
pub open spec fn begin_peek(v: ReaderView, item: bool) -> ReaderView {
    ReaderView {
        preserve: true,
        stage: Stage::Peek { at: v.position, kept: v.preserve, item },
        ..v
    }
}

/// A look at the next token, begun at `at`, is over.
pub open spec fn end_peek(v: ReaderView, at: int, kept: bool) -> ReaderView {
    ReaderView { position: at, preserve: kept, seen: Seq::empty(), stage: Stage::Idle, ..v }
}

/// The token under the look: the reply of the next token, with the reader put back
/// before it.
pub open spec fn peek_rest(v: ReaderView, at: int, kept: bool) -> (
    Reply<Option<TokenView>>,
    ReaderView,
) {
    match next_token(v) {
        (Reply::NeedData, w) => (Reply::NeedData, w),
        (reply, w) => (reply, ReaderView { depth: v.depth, ..end_peek(w, at, kept) }),
    }
}

/// The next token is looked at and not used up.
pub open spec fn peek_token(v: ReaderView) -> (Reply<Option<TokenView>>, ReaderView) {
    match v.stage {
        Stage::Peek { at, kept, .. } => peek_rest(v, at, kept),
        _ => peek_rest(begin_peek(v, false), v.position, v.preserve),
    }
}

/// An array was entered: the token under the look tells whether it has an item.
pub open spec fn first_item(v: ReaderView, at: int, kept: bool) -> (Reply<bool>, ReaderView) {
    match peek_rest(v, at, kept) {
        (Reply::Ready(Some(TokenView::EndArray)), w) => (
            Reply::Ready(false),
            next_token(w).1.in_state(ReaderState::Object),
        ),
        (Reply::Ready(_), w) => (Reply::Ready(true), w),
        (Reply::Failed(error), w) => (Reply::Failed(error), w),
        (Reply::NeedData, w) => (Reply::NeedData, w),
    }
}

/// The next item of an array is reached, or the array's end.
pub open spec fn start_array_item(v: ReaderView) -> (Reply<bool>, ReaderView) {
    match v.stage {
        Stage::Peek { at, kept, .. } => first_item(v, at, kept),
        _ => match next_token(v) {
            (Reply::Ready(Some(TokenView::StartArray)), w) => first_item(
                begin_peek(w, true),
                w.position,
                w.preserve,
            ),
            (Reply::Ready(Some(TokenView::EndObjectOrListItem)), w) => (Reply::Ready(true), w),
            (Reply::Ready(Some(TokenView::EndArray)), w) => (
                Reply::Ready(false),
                w.in_state(ReaderState::Object),
            ),
            (Reply::Ready(found), w) => (Reply::Failed(unexpected("[ or , or ]"@, found)), w),
            (Reply::Failed(error), w) => (Reply::Failed(error), w),
            (Reply::NeedData, w) => (Reply::NeedData, w),
        },
    }
}

/// What `parsed` is replied as, for an object gathered from `start` on.
pub open spec fn object_reply(
    parsed: Result<serde_json::Map<String, serde_json::Value>, serde_json::Error>,
    start: int,
) -> Reply<serde_json::Map<String, serde_json::Value>> {
    match parsed {
        Ok(map) => Reply::Ready(map),
        Err(error) => Reply::Failed(
            ErrorView::JsonError {
                error: "deserialize_object error: "@ + object::object_complaint(error),
                position: start,
            },
        ),
    }
}

/// The text gathered since `start` is parsed.
pub open spec fn parse_gathered(v: ReaderView, start: int) -> (
    Reply<serde_json::Map<String, serde_json::Value>>,
    ReaderView,
) {
    (
        object_reply(object::parsed_object(v.buffer.subrange(start, v.position)), start),
        v.in_state(ReaderState::Object).let_go(),
    )
}

/// The stream ended inside an object.
pub open spec fn object_cut_short(position: int) -> ErrorView {
    ErrorView::JsonError { error: "Unexpected EOF while reading object"@, position }
}

/// What is replied for an object from `start` on that the stream ended inside of, at
/// `position`: an error whatever `parsed` is, and the parser's own where it has one.
pub open spec fn cut_object_reply(
    parsed: Result<serde_json::Map<String, serde_json::Value>, serde_json::Error>,
    start: int,
    position: int,
) -> Reply<serde_json::Map<String, serde_json::Value>> {
    match parsed {
        Ok(_) => Reply::Failed(object_cut_short(position)),
        Err(_) => object_reply(parsed, start),
    }
}

/// The text gathered since `start` is parsed for what is wrong with it.
pub open spec fn refuse_gathered(v: ReaderView, start: int) -> (
    Reply<serde_json::Map<String, serde_json::Value>>,
    ReaderView,
) {
    (
        cut_object_reply(
            object::parsed_object(v.buffer.subrange(start, v.position)),
            start,
            v.position,
        ),
        v.in_state(ReaderState::Object).let_go(),
    )
}

/// Tokens are gathered until no more than `floor` brackets are open; then the text is
/// parsed. Where the stream ends before that, the object is refused.
pub open spec fn gather(v: ReaderView, floor: int, start: int) -> (
    Reply<serde_json::Map<String, serde_json::Value>>,
    ReaderView,
)
    decreases v.input().len(),
    when v.sound()
{
    if v.depth <= floor {
        parse_gathered(v, start)
    } else {
        proof {
            lemma_next_token_shrinks(v);
        }
        match next_token(v) {
            (Reply::Ready(Some(_)), w) => gather(w, floor, start),
            (Reply::Ready(None), w) => refuse_gathered(w, start),
            (Reply::Failed(error), w) => (Reply::Failed(error), w.let_go()),
            (Reply::NeedData, w) => (Reply::NeedData, w),
        }
    }
}

/// The object that starts at `start` is entered and gathered.
pub open spec fn gather_object(v: ReaderView, floor: int, start: int) -> (
    Reply<serde_json::Map<String, serde_json::Value>>,
    ReaderView,
) {
    match start_object(v) {
        (Reply::Ready(_), w) => gather(
            w.in_stage(
                Stage::Deserialize { floor, start, opened: true },
            ),
            floor,
            start,
        ),
        (Reply::Failed(error), w) => (Reply::Failed(error), w.let_go()),
        (Reply::NeedData, w) => (Reply::NeedData, w),
    }
}

/// The gathering of an object begins.
pub open spec fn begin_gather(v: ReaderView) -> ReaderView {
    ReaderView {
        preserve: true,
        stage: Stage::Deserialize {
            floor: v.depth,
            start: v.position,
            opened: false,
        },
        ..v
    }
}

/// An object is read whole.
pub open spec fn deserialize_object(v: ReaderView) -> (
    Reply<serde_json::Map<String, serde_json::Value>>,
    ReaderView,
) {
    match v.stage {
        Stage::Deserialize { floor, start, opened } => if opened {
            gather(v, floor, start)
        } else {
            gather_object(v, floor, start)
        },
        _ => gather_object(begin_gather(v), v.depth, v.position),
    }
}

/// There is room for a read: the buffer is used up, or it is being kept.
pub open spec fn fillable(v: ReaderView) -> bool {
    v.preserve || v.position == v.buffer.len()
}

/// The error where there is none.
pub open spec fn not_fillable(v: ReaderView) -> ErrorView {
    ErrorView::InternalState {
        message: "fill_buffer called with an unconsumed buffer: position="@ + text::numeral(
            v.position as nat,
            10,
        ) + ", buffer.len="@ + text::numeral(v.buffer.len(), 10),
    }
}

/// Room is made for a read: a buffer that is not kept is emptied.
pub open spec fn with_room(v: ReaderView) -> ReaderView {
    if v.preserve {
        v
    } else {
        ReaderView { buffer: Seq::empty(), position: 0, ..v }
    }
}

/// A read brought `chunk`; an empty one is the end of the stream.
pub open spec fn filled(v: ReaderView, chunk: Seq<u8>) -> ReaderView {
    let w = with_room(v);
    ReaderView { buffer: w.buffer + chunk, ended: chunk.len() == 0, ..w }
}

/// A read does not disturb a waiting operation.
pub proof fn lemma_filled_coherent(v: ReaderView, chunk: Seq<u8>)
    requires
        v.sound(),
        v.coherent(),
    ensures
        filled(v, chunk).sound(),
        filled(v, chunk).coherent(),
{
    if v.stage is Deserialize || v.stage is Peek {
        assert((v.buffer + chunk).subrange(v.position - v.lag(), v.position)
            =~= v.buffer.subrange(v.position - v.lag(), v.position));
    }
}

/// The operation that waits is given up, and the token that it was in is dropped.
pub open spec fn cancelled(v: ReaderView) -> ReaderView {
    match v.stage {
        Stage::Peek { at, kept, .. } => end_peek(v, at, kept),
        Stage::Deserialize { .. } => ReaderView { seen: Seq::empty(), ..v.let_go() },
        _ => ReaderView { seen: Seq::empty(), ..v.idle() },
    }
}

/// The reader before anything has been read.
pub open spec fn fresh() -> ReaderView {
    ReaderView {
        buffer: Seq::empty(),
        position: 0,
        ended: false,
        seen: Seq::empty(),
        depth: 0,
        state: ReaderState::Start,
        preserve: false,
        stage: Stage::Idle,
    }
}

} // verus!
