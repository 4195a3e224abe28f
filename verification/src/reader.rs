//! The reader.
use bytes::BytesMut;
use vstd::prelude::*;
use vstd::slice::slice_subrange;

use crate::buffer;
use crate::buffer::{capacity, clear, contents, empty_buffer, extend_from_slice, reserve};
use crate::chunk_laws;
use crate::error::{AsyncJsonStreamReaderError, ErrorView};
use crate::grammar;
use crate::grammar::Lexed;
use crate::lexer::{Flaw, Move, Phase};
use crate::model;
use crate::model::{ReaderState, ReaderView, Reply, Stage, INTERNAL_BUFFER_SIZE};
use crate::object;
use crate::object::{parse_object, show_object_error};
use crate::place;
use crate::text::{join, write_numeral};
use crate::token;
use crate::token::{show_found, show_token, JsonToken};

verus! {

/// How far an operation has come.
#[derive(Debug)]
pub enum Progress<T> {
    /// The operation waits for data. It goes on where it stopped if it is called
    /// again after `fill_buffer`.
    NeedData,
    /// The operation is done.
    Ready(Result<T, AsyncJsonStreamReaderError>),
}

/// An operation's progress as a reply, with `view` applied to the result.
pub open spec fn reply<T, V>(progress: Progress<T>, view: spec_fn(T) -> V) -> Reply<V> {
    match progress {
        Progress::NeedData => Reply::NeedData,
        Progress::Ready(Ok(value)) => Reply::Ready(view(value)),
        Progress::Ready(Err(error)) => Reply::Failed(error@),
    }
}

/// The view of a text that may be missing.
pub open spec fn maybe_text(text: Option<String>) -> Option<Seq<char>> {
    match text {
        Some(t) => Some(t@),
        None => None,
    }
}

/// An operation of several tokens that waits for data, with what it remembers.
#[derive(Debug, Clone, Copy)]
enum Pending {
    Idle,
    Skip { floor: usize },
    SkipToKey { floor: usize },
    Deserialize { floor: usize, start: usize, opened: bool },
    Peek { at: usize, kept: bool, item: bool },
}

impl View for Pending {
    type V = Stage;

    closed spec fn view(&self) -> Stage {
        match *self {
            Pending::Idle => Stage::Idle,
            Pending::Skip { floor } => Stage::Skip { floor: floor as int },
            Pending::SkipToKey { floor } => Stage::SkipToKey { floor: floor as int },
            Pending::Deserialize { floor, start, opened } => Stage::Deserialize {
                floor: floor as int,
                start: start as int,
                opened,
            },
            Pending::Peek { at, kept, item } => Stage::Peek { at: at as int, kept, item },
        }
    }
}

/// A JSON stream reader for selective parsing.
///
/// The reader performs no input itself. An operation that needs more of the stream
/// returns [`Progress::NeedData`]; the caller reads, hands what came to
/// `fill_buffer`, and calls the operation again.
pub struct AsyncJsonStreamReader {
    buffer: BytesMut,
    position: usize,
    ended: bool,
    depth: usize,
    state: ReaderState,
    preserve_buffer: bool,
    stage: Pending,
    phase: Phase,
    seen: Ghost<Seq<Option<u8>>>,
}

impl View for AsyncJsonStreamReader {
    type V = ReaderView;

    closed spec fn view(&self) -> ReaderView {
        ReaderView {
            buffer: buffer::held_bytes(self.buffer),
            position: self.position as int,
            ended: self.ended,
            seen: self.seen@,
            depth: self.depth as int,
            state: self.state,
            preserve: self.preserve_buffer,
            stage: self.stage@,
        }
    }
}

/// The error for `flaw` when the reader stands at `position`.
fn error_for(flaw: Flaw, position: usize) -> (error: AsyncJsonStreamReaderError)
    ensures
        error@ == model::error_at(flaw@, position as int),
{
    match flaw {
        Flaw::Json { error, back } => AsyncJsonStreamReaderError::JsonError {
            error,
            position: if back <= position {
                position - back
            } else {
                0
            },
        },
        Flaw::Unexpected { expected, found } => AsyncJsonStreamReaderError::UnexpectedToken {
            expected,
            found,
        },
    }
}

/// The error for a token other than those expected.
fn unexpected(expected: &'static str, found: &Option<JsonToken>) -> (error:
    AsyncJsonStreamReaderError)
    ensures
        error@ == model::unexpected(expected@, token::maybe(*found)),
{
    AsyncJsonStreamReaderError::UnexpectedToken { expected, found: show_found(found) }
}

/// The error for a stream that ends inside a value.
fn value_cut_short(position: usize) -> (error: AsyncJsonStreamReaderError)
    ensures
        error@ == model::value_cut_short(position as int),
{
    AsyncJsonStreamReaderError::JsonError {
        error: "Unexpected EOF while skipping value".to_string(),
        position,
    }
}

/// The error for a key that the object does not have.
fn key_not_found(position: usize) -> (error: AsyncJsonStreamReaderError)
    ensures
        error@ == model::key_not_found(position as int),
{
    AsyncJsonStreamReaderError::JsonError { error: "key not found".to_string(), position }
}

/// The result for an object gathered from `start` on, given what the parser made
/// of its text.
pub fn object_result(
    parsed: Result<serde_json::Map<String, serde_json::Value>, serde_json::Error>,
    start: usize,
) -> (result: Result<serde_json::Map<String, serde_json::Value>, AsyncJsonStreamReaderError>)
    ensures
        reply(
            Progress::Ready(result),
            |map: serde_json::Map<String, serde_json::Value>| map,
        ) == model::object_reply(parsed, start as int),
        parsed matches Ok(map) ==> result == Ok::<_, AsyncJsonStreamReaderError>(map),
        parsed matches Err(complaint) ==> result matches Err(error) && error@ == (
        ErrorView::JsonError {
            error: "deserialize_object error: "@ + object::object_complaint(complaint),
            position: start as int,
        }),
{
    match parsed {
        Ok(map) => Ok(map),
        Err(error) => Err(
            AsyncJsonStreamReaderError::JsonError {
                error: join("deserialize_object error: ", show_object_error(&error).as_str()),
                position: start,
            },
        ),
    }
}

/// The error for a stream that ends inside an object that is read whole.
fn object_cut_short(position: usize) -> (error: AsyncJsonStreamReaderError)
    ensures
        error@ == model::object_cut_short(position as int),
{
    AsyncJsonStreamReaderError::JsonError {
        error: "Unexpected EOF while reading object".to_string(),
        position,
    }
}

/// The result for an object from `start` on that the stream ended inside of, at
/// `position`, given what the parser made of its text. It is an error in any case.
pub fn cut_object_result(
    parsed: Result<serde_json::Map<String, serde_json::Value>, serde_json::Error>,
    start: usize,
    position: usize,
) -> (result: Result<serde_json::Map<String, serde_json::Value>, AsyncJsonStreamReaderError>)
    ensures
        reply(
            Progress::Ready(result),
            |map: serde_json::Map<String, serde_json::Value>| map,
        ) == model::cut_object_reply(parsed, start as int, position as int),
        result matches Err(error) && error@ is JsonError,
        parsed matches Ok(_) ==> result matches Err(error) && error@ == (ErrorView::JsonError {
            error: "Unexpected EOF while reading object"@,
            position: position as int,
        }),
        parsed matches Err(complaint) ==> result matches Err(error) && error@ == (
        ErrorView::JsonError {
            error: "deserialize_object error: "@ + object::object_complaint(complaint),
            position: start as int,
        }),
{
    match parsed {
        Ok(_) => Err(object_cut_short(position)),
        Err(error) => object_result(Err(error), start),
    }
}

/// `progress` is what is owed for `number`, given what the caller's `parse` made of
/// it.
pub open spec fn number_agrees<T>(
    progress: Progress<T>,
    number: Seq<char>,
    parsed: Result<T, String>,
    position: int,
) -> bool {
    match parsed {
        Ok(value) => progress == Progress::Ready(Ok(value)),
        Err(reason) => progress matches Progress::Ready(Err(error)) && error@ == model::unparsed(
            number,
            reason@,
            position,
        ),
    }
}

/// The result for a number read up to `position`, given what the caller's parser
/// made of it.
pub fn number_result<T>(number: &str, parsed: Result<T, String>, position: usize) -> (result:
    Result<T, AsyncJsonStreamReaderError>)
    ensures
        number_agrees(Progress::Ready(result), number@, parsed, position as int),
        parsed matches Ok(value) ==> result == Ok::<T, AsyncJsonStreamReaderError>(value),
        parsed matches Err(reason) ==> result matches Err(error) && error@ == (
        ErrorView::JsonError {
            error: "Can't parse number "@ + number@ + ": "@ + reason@,
            position: position as int,
        }),
{
    match parsed {
        Ok(value) => Ok(value),
        Err(reason) => {
            let mut error = join("Can't parse number ", number);
            error.append(": ");
            error.append(reason.as_str());
            Err(AsyncJsonStreamReaderError::JsonError { error, position })
        },
    }
}

impl AsyncJsonStreamReader {
    /// The buffer is not overrun, and the tokenizer stands where the part of the
    /// token that was read has led it.
    spec fn in_step(&self) -> bool {
        &&& self@.sound()
        &&& self.phase.wf()
        &&& self.phase.reached(self.seen@, self.depth as int)
    }

    /// The reader's invariant.
    pub closed spec fn wf(&self) -> bool {
        self.in_step() && self@.coherent() && self@.frugal()
    }

    /// What the invariant says of the view.
    pub proof fn lemma_wf(&self)
        requires
            self.wf(),
        ensures
            self@.sound(),
            self@.coherent(),
            self@.frugal(),
            self@.depth >= 0,
    {
    }

    /// Creates a reader with the default buffer size.
    pub fn new() -> (reader: Self)
        ensures
            reader.wf(),
            reader@.has_room(),
            reader@ == model::fresh(),
    {
        proof {
            Phase::lemma_start(0);
        }
        AsyncJsonStreamReader {
            buffer: empty_buffer(INTERNAL_BUFFER_SIZE),
            position: 0,
            ended: false,
            depth: 0,
            state: ReaderState::Start,
            preserve_buffer: false,
            stage: Pending::Idle,
            phase: Phase::Start,
            seen: Ghost(Seq::empty()),
        }
    }

    /// Tells whether the depth can still be counted, whatever the unread bytes hold.
    pub fn has_room(&self) -> (r: bool)
        requires
            self.wf(),
        ensures
            r == self@.has_room(),
    {
        let from = match self.stage {
            Pending::Peek { at, .. } => at,
            _ => self.position,
        };
        let unread = contents(&self.buffer).len() - from;
        unread <= usize::MAX - self.depth
    }

    /// Tells whether the buffer can grow by `len` bytes.
    pub fn can_hold(&self, len: usize) -> (r: bool)
        ensures
            r == self@.can_hold(len as int),
    {
        let held = contents(&self.buffer).len();
        let limit = isize::MAX as usize / 2 - INTERNAL_BUFFER_SIZE;
        held <= limit && len <= limit - held
    }

    /// Makes room for a read.
    fn make_room(&mut self) -> (result: Result<(), AsyncJsonStreamReaderError>)
        requires
            old(self).wf(),
            old(self)@.can_hold(0),
        ensures
            final(self).wf(),
            if model::fillable(old(self)@) {
                result is Ok && final(self)@ == model::with_room(old(self)@)
            } else {
                &&& result matches Err(error) && error@ == model::not_fillable(old(self)@)
                &&& final(self)@ == old(self)@
            },
    {
        if self.preserve_buffer {
            reserve(&mut self.buffer, INTERNAL_BUFFER_SIZE);
        } else {
            let held = contents(&self.buffer).len();
            if self.position != held {
                let mut message = join(
                    "fill_buffer called with an unconsumed buffer: position=",
                    write_numeral(self.position, 10).as_str(),
                );
                message.append(", buffer.len=");
                message.append(write_numeral(held, 10).as_str());
                return Err(AsyncJsonStreamReaderError::InternalState { message });
            }
            if held != 0 {
                if capacity(&self.buffer) > INTERNAL_BUFFER_SIZE {
                    self.buffer = empty_buffer(INTERNAL_BUFFER_SIZE);
                } else {
                    clear(&mut self.buffer);
                }
                self.position = 0;
            }
        }
        Ok(())
    }

    /// Takes in what a read of the stream brought, after an operation asked for data.
    /// An empty chunk reports the end of the stream.
    ///
    /// Returns whether any byte came.
    pub fn fill_buffer(&mut self, chunk: &[u8]) -> (result: Result<
        bool,
        AsyncJsonStreamReaderError,
    >)
        requires
            old(self).wf(),
            old(self)@.can_hold(chunk@.len() as int),
        ensures
            final(self).wf(),
            if model::fillable(old(self)@) {
                &&& result == Ok::<bool, AsyncJsonStreamReaderError>(chunk@.len() > 0)
                &&& final(self)@ == model::filled(old(self)@, chunk@)
            } else {
                &&& result matches Err(error) && error@ == model::not_fillable(old(self)@)
                &&& final(self)@ == old(self)@
            },
    {
        match self.make_room() {
            Ok(()) => {
                extend_from_slice(&mut self.buffer, chunk);
                proof {
                    model::lemma_filled_coherent(old(self)@, chunk@);
                }
                self.ended = chunk.len() == 0;
                Ok(chunk.len() > 0)
            },
            Err(error) => Err(error),
        }
    }

    /// Takes in that a read of the stream failed, for the reason given, after an
    /// operation asked for data. The operation is given up.
    pub fn read_failed(&mut self, message: String) -> (error: AsyncJsonStreamReaderError)
        requires
            old(self).wf(),
            old(self)@.can_hold(0),
        ensures
            final(self).wf(),
            if model::fillable(old(self)@) {
                &&& error@ == ErrorView::Io(message@)
                &&& final(self)@ == model::cancelled(model::with_room(old(self)@))
            } else {
                &&& error@ == model::not_fillable(old(self)@)
                &&& final(self)@ == old(self)@
            },
    {
        match self.make_room() {
            Ok(()) => {
                self.cancel();
                AsyncJsonStreamReaderError::Io(message)
            },
            Err(error) => error,
        }
    }

    /// Gives up the operation that waits for data; the token that it was in is dropped.
    pub fn cancel(&mut self)
        requires
            old(self).wf(),
        ensures
            final(self).wf(),
            final(self)@ == model::cancelled(old(self)@),
            final(self)@.at_rest(),
    {
        match self.stage {
            Pending::Peek { at, kept, .. } => {
                self.position = at;
                self.preserve_buffer = kept;
            },
            Pending::Deserialize { .. } => {
                self.preserve_buffer = false;
            },
            _ => {},
        }
        self.stage = Pending::Idle;
        self.phase = Phase::Start;
        self.seen = Ghost(Seq::empty());
        proof {
            Phase::lemma_start(self.depth as int);
        }
    }

    /// Runs the tokenizer over what has arrived.
    fn scan(&mut self) -> (step: Option<Move>)
        requires
            old(self).in_step(),
        ensures
            final(self).in_step(),
            step is Some ==> final(self).phase is Start,
            match grammar::lex(old(self)@.input(), old(self)@.depth) {
                Lexed::More => step is None && final(self)@ == old(self)@.exhausted(),
                Lexed::End { len } => step == Some(Move::End) && final(self)@ == old(self)@.past(
                    len,
                ),
                Lexed::Token { token, len } => {
                    &&& step matches Some(Move::Token { token: t, .. }) && t@ == token
                    &&& final(self)@ == old(self)@.past(len)
                    &&& place::punctuation(token) ==> final(self)@.position > old(self)@.position
                    &&& (token is EndObject || token is EndArray) ==> old(self)@.depth > 0
                },
                Lexed::Flaw { flaw, len } => {
                    &&& step matches Some(Move::Flaw { flaw: f, .. }) && f@ == flaw
                    &&& final(self)@ == old(self)@.past(len)
                },
            },
    {
        let ghost v = self@;
        let ghost s = v.input();
        let bytes = contents(&self.buffer);
        let mut phase = Phase::Start;
        core::mem::swap(&mut phase, &mut self.phase);
        let mut position = self.position;
        let mut ended = self.ended;
        let ghost mut n = v.seen.len() as int;
        let depth = self.depth;
        let mut outcome: Option<Move> = None;
        assert(s.take(n) =~= v.seen);
        proof {
            Phase::lemma_start(v.depth);
        }
        loop
            invariant_except_break
                outcome is None,
                phase.wf(),
                phase.reached(s.take(n), v.depth),
            invariant
                bytes@ == v.buffer,
                s == v.input(),
                v.sound(),
                depth == v.depth,
                v.seen.len() <= n <= s.len(),
                position == v.past(n).position,
                ended == v.past(n).ended,
            ensures
                match grammar::lex(s, v.depth) {
                    Lexed::More => outcome is None && n == s.len(),
                    Lexed::End { len } => outcome == Some(Move::End) && n == len,
                    Lexed::Token { token, len } => {
                        &&& outcome matches Some(Move::Token { token: t, .. }) && t@ == token
                        &&& n == len
                        &&& place::punctuation(token) ==> position > v.position
                        &&& (token is EndObject || token is EndArray) ==> v.depth > 0
                    },
                    Lexed::Flaw { flaw, len } => {
                        &&& outcome matches Some(Move::Flaw { flaw: f, .. }) && f@ == flaw
                        &&& n == len
                    },
                },
                outcome is None ==> phase.wf() && phase.reached(s, v.depth),
            decreases s.len() - n,
        {
            proof {
                model::lemma_next_event(v, n);
            }
            let at_end = position >= bytes.len();
            if at_end && !ended {
                assert(s.take(n) =~= s);
                proof {
                    phase.lemma_exhausted(s, v.depth);
                }
                break ;
            }
            let event = if at_end {
                None
            } else {
                Some(bytes[position])
            };
            let ghost before = phase;
            let step = phase.take(event, depth);
            proof {
                before.lemma_step(s, n, v.depth, step);
            }
            let used = match &step {
                Move::On { .. } => true,
                Move::End => true,
                Move::Token { used, .. } => *used,
                Move::Flaw { used, .. } => *used,
            };
            if used {
                if at_end {
                    ended = false;
                } else {
                    position += 1;
                }
                proof {
                    n = n + 1;
                }
            }
            match step {
                Move::On { phase: next, .. } => {
                    phase = next;
                },
                step => {
                    phase = Phase::Start;
                    outcome = Some(step);
                    break ;
                },
            }
        }
        self.position = position;
        self.ended = ended;
        if outcome.is_none() {
            self.phase = phase;
            self.seen = Ghost(s);
        } else {
            self.seen = Ghost(Seq::empty());
        }
        outcome
    }

    /// Uses the next token up.
    fn take_token(&mut self) -> (progress: Progress<Option<JsonToken>>)
        requires
            old(self).wf(),
            old(self)@.has_room(),
            !(old(self)@.stage is Peek),
            old(self)@.inside(),
        ensures
            final(self).wf(),
            final(self)@.has_room(),
            (reply(progress, |found: Option<JsonToken>| token::maybe(found)), final(self)@)
                == model::next_token(old(self)@),
            final(self)@.state == old(self)@.state,
            final(self)@.stage == old(self)@.stage,
            progress is Ready ==> final(self)@.seen.len() == 0,
            progress is NeedData ==> model::fillable(final(self)@),
    {
        proof {
            reveal(model::next_token);
            model::lemma_exhausted_coherent(self@);
        }
        let step = self.scan();
        proof {
            if step is Some {
                model::lemma_holds_nothing(self@);
            }
        }
        match step {
            None => Progress::NeedData,
            Some(Move::Token { token, .. }) => {
                match &token {
                    JsonToken::StartObject | JsonToken::StartArray => {
                        self.depth += 1;
                    },
                    JsonToken::EndObject | JsonToken::EndArray => {
                        self.depth -= 1;
                    },
                    _ => {},
                }
                proof {
                    Phase::lemma_start(self.depth as int);
                }
                Progress::Ready(Ok(Some(token)))
            },
            Some(Move::Flaw { flaw, .. }) => Progress::Ready(Err(error_for(flaw, self.position))),
            Some(_) => Progress::Ready(Ok(None)),
        }
    }

    /// Reads the next JSON token from the stream.
    ///
    /// This is a low-level API; avoid mixing it with `next_object_entry`-based helpers.
    pub fn next_token(&mut self) -> (progress: Progress<Option<JsonToken>>)
        requires
            old(self).wf(),
            old(self)@.has_room(),
            old(self)@.stage is Idle,
        ensures
            final(self).wf(),
            final(self)@.has_room(),
            (reply(progress, |found: Option<JsonToken>| token::maybe(found)), final(self)@)
                == model::next_token(old(self)@),
            progress is Ready ==> final(self)@.at_rest(),
            progress is NeedData ==> final(self)@.stage is Idle && model::fillable(final(self)@),
    {
        self.take_token()
    }

    /// Begins a look at the next token.
    fn begin_look(&mut self, item: bool)
        requires
            old(self).wf(),
            old(self)@.at_rest(),
        ensures
            final(self).wf(),
            final(self)@ == model::begin_peek(old(self)@, item),
    {
        self.stage = Pending::Peek { at: self.position, kept: self.preserve_buffer, item };
        self.preserve_buffer = true;
        proof {
            model::lemma_holds_nothing(self@);
        }
    }

    /// Looks at the next token, where the look began at `at`.
    fn look(&mut self, at: usize, kept: bool) -> (progress: Progress<Option<JsonToken>>)
        requires
            old(self).wf(),
            old(self)@.has_room(),
            old(self)@.stage matches Stage::Peek { at: a, kept: k, .. } && a == at && k == kept,
        ensures
            final(self).wf(),
            final(self)@.has_room(),
            (reply(progress, |found: Option<JsonToken>| token::maybe(found)), final(self)@)
                == model::peek_rest(old(self)@, at as int, kept),
            progress is Ready ==> final(self)@.at_rest(),
            progress is NeedData ==> final(self)@.stage == old(self)@.stage
                && model::fillable(final(self)@),
    {
        proof {
            reveal(model::next_token);
            model::lemma_exhausted_coherent(self@);
        }
        let step = self.scan();
        let position = self.position;
        if step.is_some() {
            self.position = at;
            self.preserve_buffer = kept;
            self.stage = Pending::Idle;
        }
        match step {
            None => Progress::NeedData,
            Some(Move::Token { token, .. }) => Progress::Ready(Ok(Some(token))),
            Some(Move::Flaw { flaw, .. }) => Progress::Ready(Err(error_for(flaw, position))),
            Some(_) => Progress::Ready(Ok(None)),
        }
    }

    /// Peeks at the next JSON token without consuming it.
    pub fn peek_token(&mut self) -> (progress: Progress<Option<JsonToken>>)
        requires
            old(self).wf(),
            old(self)@.has_room(),
            old(self)@.may_peek(),
        ensures
            final(self).wf(),
            final(self)@.has_room(),
            (reply(progress, |found: Option<JsonToken>| token::maybe(found)), final(self)@)
                == model::peek_token(old(self)@),
            progress is Ready ==> final(self)@.at_rest(),
            progress is NeedData ==> final(self)@.may_peek() && model::fillable(final(self)@),
    {
        if let Pending::Peek { at, kept, .. } = self.stage {
            return self.look(at, kept);
        }
        let at = self.position;
        let kept = self.preserve_buffer;
        self.begin_look(false);
        self.look(at, kept)
    }

    /// Uses up a brace that opens an object.
    fn enter_object(&mut self) -> (progress: Progress<()>)
        requires
            old(self).wf(),
            old(self)@.has_room(),
            !(old(self)@.stage is Peek),
            old(self)@.inside(),
        ensures
            final(self).wf(),
            final(self)@.has_room(),
            (reply(progress, |done: ()| done), final(self)@) == model::start_object(old(self)@),
            final(self)@.stage == old(self)@.stage,
            progress is Ready ==> final(self)@.seen.len() == 0,
            progress is NeedData ==> model::fillable(final(self)@),
    {
        match self.take_token() {
            Progress::Ready(Ok(Some(JsonToken::StartObject))) => {
                self.state = ReaderState::Object;
                Progress::Ready(Ok(()))
            },
            Progress::Ready(Ok(found)) => Progress::Ready(Err(unexpected("{", &found))),
            Progress::Ready(Err(error)) => Progress::Ready(Err(error)),
            Progress::NeedData => Progress::NeedData,
        }
    }

    /// Starts reading an object.
    pub fn start_object(&mut self) -> (progress: Progress<()>)
        requires
            old(self).wf(),
            old(self)@.has_room(),
            old(self)@.stage is Idle,
        ensures
            final(self).wf(),
            final(self)@.has_room(),
            (reply(progress, |done: ()| done), final(self)@) == model::start_object(old(self)@),
            progress is Ready ==> final(self)@.at_rest(),
            progress is NeedData ==> final(self)@.stage is Idle && model::fillable(final(self)@),
    {
        self.enter_object()
    }

    /// Reads a string value.
    pub fn read_string(&mut self) -> (progress: Progress<String>)
        requires
            old(self).wf(),
            old(self)@.has_room(),
            old(self)@.stage is Idle,
        ensures
            final(self).wf(),
            final(self)@.has_room(),
            (reply(progress, |text: String| text@), final(self)@) == model::read_string(old(self)@),
            progress is Ready ==> final(self)@.at_rest(),
            progress is NeedData ==> final(self)@.stage is Idle && model::fillable(final(self)@),
    {
        match self.take_token() {
            Progress::Ready(Ok(Some(JsonToken::String(text)))) => {
                self.state = ReaderState::Object;
                Progress::Ready(Ok(text))
            },
            Progress::Ready(Ok(found)) => Progress::Ready(Err(unexpected("string", &found))),
            Progress::Ready(Err(error)) => Progress::Ready(Err(error)),
            Progress::NeedData => Progress::NeedData,
        }
    }

    /// Reads a nullable string value.
    pub fn read_nullable_string(&mut self) -> (progress: Progress<Option<String>>)
        requires
            old(self).wf(),
            old(self)@.has_room(),
            old(self)@.stage is Idle,
        ensures
            final(self).wf(),
            final(self)@.has_room(),
            (reply(progress, |text: Option<String>| maybe_text(text)), final(self)@)
                == model::read_nullable_string(old(self)@),
            progress is Ready ==> final(self)@.at_rest(),
            progress is NeedData ==> final(self)@.stage is Idle && model::fillable(final(self)@),
    {
        match self.take_token() {
            Progress::Ready(Ok(Some(JsonToken::String(text)))) => {
                self.state = ReaderState::Object;
                Progress::Ready(Ok(Some(text)))
            },
            Progress::Ready(Ok(Some(JsonToken::Null))) => {
                self.state = ReaderState::Object;
                Progress::Ready(Ok(None))
            },
            Progress::Ready(Ok(found)) => Progress::Ready(Err(unexpected("string", &found))),
            Progress::Ready(Err(error)) => Progress::Ready(Err(error)),
            Progress::NeedData => Progress::NeedData,
        }
    }

    /// Reads a number value, which `parse` turns from text into the caller's type. The
    /// error that `parse` returns is the reason to be given for a text that the type
    /// cannot hold.
    pub fn read_number<T, F: FnOnce(&str) -> Result<T, String>>(&mut self, parse: F) -> (progress:
        Progress<T>)
        requires
            old(self).wf(),
            old(self)@.has_room(),
            old(self)@.stage is Idle,
            forall|text: &str| call_requires(parse, (text,)),
        ensures
            final(self).wf(),
            final(self)@.has_room(),
            final(self)@ == model::read_number_text(old(self)@).1,
            match model::read_number_text(old(self)@).0 {
                Reply::Ready(number) => exists|text: &str, parsed: Result<T, String>|
                    {
                        &&& text@ == number
                        &&& #[trigger] call_ensures(parse, (text,), parsed)
                        &&& number_agrees(progress, number, parsed, final(self)@.position)
                        &&& parsed matches Ok(value) ==> progress == Progress::Ready(Ok(value))
                        &&& parsed matches Err(reason) ==> progress matches Progress::Ready(
                            Err(error),
                        ) && error@ == (ErrorView::JsonError {
                            error: "Can't parse number "@ + number + ": "@ + reason@,
                            position: final(self)@.position,
                        })
                    },
                Reply::Failed(error) => progress matches Progress::Ready(Err(e)) && e@ == error,
                Reply::NeedData => progress is NeedData,
            },
            progress is Ready ==> final(self)@.at_rest(),
            progress is NeedData ==> final(self)@.stage is Idle && model::fillable(final(self)@),
    {
        match self.take_token() {
            Progress::Ready(Ok(Some(JsonToken::Number(number)))) => {
                let text = number.as_str();
                let parsed = parse(text);
                let ghost outcome = parsed;
                let result = number_result(text, parsed, self.position);
                self.state = ReaderState::Object;
                assert(call_ensures(parse, (text,), outcome));
                Progress::Ready(result)
            },
            Progress::Ready(Ok(found)) => Progress::Ready(Err(unexpected("number", &found))),
            Progress::Ready(Err(error)) => Progress::Ready(Err(error)),
            Progress::NeedData => Progress::NeedData,
        }
    }

    /// Reads a boolean value.
    pub fn read_boolean(&mut self) -> (progress: Progress<bool>)
        requires
            old(self).wf(),
            old(self)@.has_room(),
            old(self)@.stage is Idle,
        ensures
            final(self).wf(),
            final(self)@.has_room(),
            (reply(progress, |b: bool| b), final(self)@) == model::read_boolean(old(self)@),
            progress is Ready ==> final(self)@.at_rest(),
            progress is NeedData ==> final(self)@.stage is Idle && model::fillable(final(self)@),
    {
        match self.take_token() {
            Progress::Ready(Ok(Some(JsonToken::Boolean(b)))) => {
                self.state = ReaderState::Object;
                Progress::Ready(Ok(b))
            },
            Progress::Ready(Ok(found)) => Progress::Ready(Err(unexpected("boolean", &found))),
            Progress::Ready(Err(error)) => Progress::Ready(Err(error)),
            Progress::NeedData => Progress::NeedData,
        }
    }

    /// Reads the next key in an object.
    pub fn read_key(&mut self) -> (progress: Progress<Option<String>>)
        requires
            old(self).wf(),
            old(self)@.has_room(),
            old(self)@.stage is Idle,
        ensures
            final(self).wf(),
            final(self)@.has_room(),
            (reply(progress, |key: Option<String>| maybe_text(key)), final(self)@)
                == model::read_key(old(self)@),
            progress is Ready ==> final(self)@.at_rest(),
            progress is NeedData ==> final(self)@.stage is Idle && model::fillable(final(self)@),
    {
        loop
            invariant
                self.wf(),
                self@.has_room(),
                self@.stage is Idle,
                model::read_key(self@) == model::read_key(old(self)@),
            decreases self@.input().len(),
        {
            proof {
                model::lemma_next_token_shrinks(self@);
            }
            match self.take_token() {
                Progress::Ready(Ok(Some(JsonToken::Key(key)))) => {
                    return Progress::Ready(Ok(Some(key)));
                },
                Progress::Ready(Ok(Some(JsonToken::EndObject))) => {
                    return Progress::Ready(Ok(None));
                },
                Progress::Ready(Ok(Some(JsonToken::EndObjectOrListItem))) => {},
                Progress::Ready(Ok(found)) => {
                    return Progress::Ready(Err(unexpected("key or end of object", &found)));
                },
                Progress::Ready(Err(error)) => {
                    return Progress::Ready(Err(error));
                },
                Progress::NeedData => {
                    return Progress::NeedData;
                },
            }
        }
    }

    /// Passes tokens over until no more than `floor` brackets are open.
    fn skip_rest(&mut self, floor: usize) -> (progress: Progress<()>)
        requires
            old(self).wf(),
            old(self)@.has_room(),
            old(self)@.stage == (Stage::Skip { floor: floor as int }),
        ensures
            final(self).wf(),
            final(self)@.has_room(),
            (reply(progress, |done: ()| done), final(self)@) == model::skip_rest(
                old(self)@,
                floor as int,
            ),
            progress is Ready ==> final(self)@.at_rest(),
            progress is NeedData ==> final(self)@.state == old(self)@.state,
            progress is NeedData ==> final(self)@.stage is Skip && model::fillable(final(self)@),
    {
        while self.depth > floor
            invariant
                self.wf(),
                self@.has_room(),
                self@.state == old(self)@.state,
                self@.stage == (Stage::Skip { floor: floor as int }),
                model::skip_rest(self@, floor as int) == model::skip_rest(
                    old(self)@,
                    floor as int,
                ),
            decreases self@.input().len(),
        {
            proof {
                model::lemma_next_token_shrinks(self@);
            }
            match self.take_token() {
                Progress::Ready(Ok(Some(_))) => {},
                Progress::Ready(Ok(None)) => {
                    self.stage = Pending::Idle;
                    return Progress::Ready(Err(value_cut_short(self.position)));
                },
                Progress::Ready(Err(error)) => {
                    self.stage = Pending::Idle;
                    return Progress::Ready(Err(error));
                },
                Progress::NeedData => {
                    return Progress::NeedData;
                },
            }
        }
        self.state = ReaderState::Object;
        self.stage = Pending::Idle;
        Progress::Ready(Ok(()))
    }

    /// Skips the next value, however deep.
    pub fn skip_value(&mut self) -> (progress: Progress<()>)
        requires
            old(self).wf(),
            old(self)@.has_room(),
            old(self)@.may_skip(),
        ensures
            final(self).wf(),
            final(self)@.has_room(),
            (reply(progress, |done: ()| done), final(self)@) == model::skip_value(old(self)@),
            progress is Ready ==> final(self)@.at_rest(),
            progress is NeedData ==> final(self)@.state == old(self)@.state,
            progress is NeedData ==> final(self)@.may_skip() && model::fillable(final(self)@),
    {
        if let Pending::Skip { floor } = self.stage {
            return self.skip_rest(floor);
        }
        let floor = self.depth;
        match self.take_token() {
            Progress::Ready(Ok(None)) => Progress::Ready(Err(value_cut_short(self.position))),
            Progress::Ready(Ok(Some(token))) => match token {
                JsonToken::StartObject | JsonToken::StartArray => {
                    self.stage = Pending::Skip { floor };
                    self.skip_rest(floor)
                },
                JsonToken::String(_)
                | JsonToken::Number(_)
                | JsonToken::Boolean(_)
                | JsonToken::Null => {
                    self.state = ReaderState::Object;
                    Progress::Ready(Ok(()))
                },
                other => Progress::Ready(
                    Err(
                        AsyncJsonStreamReaderError::UnexpectedToken {
                            expected: "a value",
                            found: show_token(&other),
                        },
                    ),
                ),
            },
            Progress::Ready(Err(error)) => Progress::Ready(Err(error)),
            Progress::NeedData => Progress::NeedData,
        }
    }

    /// Skips the next object value entirely.
    pub fn skip_object(&mut self) -> (progress: Progress<()>)
        requires
            old(self).wf(),
            old(self)@.has_room(),
            old(self)@.may_skip(),
        ensures
            final(self).wf(),
            final(self)@.has_room(),
            (reply(progress, |done: ()| done), final(self)@) == model::skip_object(old(self)@),
            progress is Ready ==> final(self)@.at_rest(),
            progress is NeedData ==> final(self)@.may_skip() && model::fillable(final(self)@),
    {
        if let Pending::Skip { floor } = self.stage {
            return self.skip_rest(floor);
        }
        let floor = self.depth;
        match self.enter_object() {
            Progress::Ready(Ok(())) => {
                self.stage = Pending::Skip { floor };
                self.skip_rest(floor)
            },
            other => other,
        }
    }

    /// Goes before the next key of the current object.
    fn reach_key(&mut self) -> (progress: Progress<()>)
        requires
            old(self).wf(),
            old(self)@.has_room(),
            old(self)@.may_enter(),
        ensures
            final(self).wf(),
            final(self)@.has_room(),
            (reply(progress, |done: ()| done), final(self)@) == model::reach_key(old(self)@),
            progress is Ready ==> final(self)@.stage is Idle,
            progress matches Progress::Ready(Err(_)) ==> final(self)@.at_rest(),
            progress is NeedData ==> final(self)@.may_enter() && model::fillable(final(self)@),
    {
        match self.state {
            ReaderState::Start => self.enter_object(),
            ReaderState::Value => self.skip_value(),
            ReaderState::Object => Progress::Ready(Ok(())),
        }
    }

    /// Reads the next object key and positions the reader on its value.
    pub fn next_object_entry(&mut self) -> (progress: Progress<Option<String>>)
        requires
            old(self).wf(),
            old(self)@.has_room(),
            old(self)@.may_enter(),
        ensures
            final(self).wf(),
            final(self)@.has_room(),
            (reply(progress, |key: Option<String>| maybe_text(key)), final(self)@)
                == model::next_object_entry(old(self)@),
            progress is Ready ==> final(self)@.at_rest(),
            progress is NeedData ==> final(self)@.may_enter() && model::fillable(final(self)@),
    {
        match self.reach_key() {
            Progress::Ready(Ok(())) => match self.read_key() {
                Progress::Ready(Ok(Some(key))) => {
                    self.state = ReaderState::Value;
                    Progress::Ready(Ok(Some(key)))
                },
                other => other,
            },
            Progress::Ready(Err(error)) => Progress::Ready(Err(error)),
            Progress::NeedData => Progress::NeedData,
        }
    }

    /// Passes tokens over until `target_key` comes as a key at depth `floor`.
    fn seek_key(&mut self, target_key: &str, floor: usize) -> (progress: Progress<()>)
        requires
            old(self).wf(),
            old(self)@.has_room(),
            old(self)@.stage is SkipToKey,
        ensures
            final(self).wf(),
            final(self)@.has_room(),
            (reply(progress, |done: ()| done), final(self)@) == model::seek_key(
                old(self)@,
                target_key@,
                floor as int,
            ),
            progress is Ready ==> final(self)@.at_rest(),
            progress is NeedData ==> final(self)@.stage is SkipToKey
                && model::fillable(final(self)@),
    {
        let target = target_key.to_string();
        loop
            invariant
                target@ == target_key@,
                self.wf(),
                self@.has_room(),
                self@.stage is SkipToKey,
                model::seek_key(self@, target_key@, floor as int) == model::seek_key(
                    old(self)@,
                    target_key@,
                    floor as int,
                ),
            decreases self@.input().len(),
        {
            proof {
                model::lemma_next_token_shrinks(self@);
            }
            match self.take_token() {
                Progress::Ready(Ok(Some(token))) => match token {
                    JsonToken::Key(key) => {
                        if self.depth == floor && key == target {
                            self.state = ReaderState::Value;
                            self.stage = Pending::Idle;
                            return Progress::Ready(Ok(()));
                        }
                    },
                    JsonToken::EndObject => {
                        if self.depth < floor {
                            self.stage = Pending::Idle;
                            return Progress::Ready(Err(key_not_found(self.position)));
                        }
                    },
                    _ => {},
                },
                Progress::Ready(Ok(None)) => {
                    self.stage = Pending::Idle;
                    return Progress::Ready(Err(key_not_found(self.position)));
                },
                Progress::Ready(Err(error)) => {
                    self.stage = Pending::Idle;
                    return Progress::Ready(Err(error));
                },
                Progress::NeedData => {
                    return Progress::NeedData;
                },
            }
        }
    }

    /// Skips to a specific key in the current object without descending into nested
    /// objects.
    ///
    /// When this is done, the reader is positioned on the value for `target_key`. Use
    /// `read_*` methods to consume that value before calling `next_object_entry`.
    pub fn skip_to_key(&mut self, target_key: &str) -> (progress: Progress<()>)
        requires
            old(self).wf(),
            old(self)@.has_room(),
            old(self)@.may_seek(),
        ensures
            final(self).wf(),
            final(self)@.has_room(),
            (reply(progress, |done: ()| done), final(self)@) == model::skip_to_key(
                old(self)@,
                target_key@,
            ),
            progress is Ready ==> final(self)@.at_rest(),
            progress is NeedData ==> final(self)@.may_seek() && model::fillable(final(self)@),
    {
        if let Pending::SkipToKey { floor } = self.stage {
            return self.seek_key(target_key, floor);
        }
        match self.reach_key() {
            Progress::Ready(Ok(())) => {
                let floor = self.depth;
                self.stage = Pending::SkipToKey { floor };
                self.seek_key(target_key, floor)
            },
            other => other,
        }
    }

    /// Looks whether an array that was entered has an item.
    fn first_item(&mut self, at: usize, kept: bool) -> (progress: Progress<bool>)
        requires
            old(self).wf(),
            old(self)@.has_room(),
            old(self)@.stage matches Stage::Peek { at: a, kept: k, .. } && a == at && k == kept,
        ensures
            final(self).wf(),
            final(self)@.has_room(),
            (reply(progress, |more: bool| more), final(self)@) == model::first_item(
                old(self)@,
                at as int,
                kept,
            ),
            progress is Ready ==> final(self)@.at_rest(),
            progress is NeedData ==> final(self)@.stage == old(self)@.stage
                && model::fillable(final(self)@),
    {
        proof {
            chunk_laws::lemma_end_seen_is_taken(self@);
        }
        match self.look(at, kept) {
            Progress::Ready(Ok(Some(JsonToken::EndArray))) => {
                let _ = self.take_token();
                self.state = ReaderState::Object;
                Progress::Ready(Ok(false))
            },
            Progress::Ready(Ok(_)) => Progress::Ready(Ok(true)),
            Progress::Ready(Err(error)) => Progress::Ready(Err(error)),
            Progress::NeedData => Progress::NeedData,
        }
    }

    /// Reads the next item in an array.
    ///
    /// Returns `true` if an item was read, `false` if the array ended.
    pub fn start_array_item(&mut self) -> (progress: Progress<bool>)
        requires
            old(self).wf(),
            old(self)@.has_room(),
            old(self)@.may_start_item(),
        ensures
            final(self).wf(),
            final(self)@.has_room(),
            (reply(progress, |more: bool| more), final(self)@) == model::start_array_item(
                old(self)@,
            ),
            progress is Ready ==> final(self)@.at_rest(),
            progress is NeedData ==> final(self)@.may_start_item() && model::fillable(final(self)@),
    {
        if let Pending::Peek { at, kept, .. } = self.stage {
            return self.first_item(at, kept);
        }
        match self.take_token() {
            Progress::Ready(Ok(Some(JsonToken::StartArray))) => {
                let at = self.position;
                let kept = self.preserve_buffer;
                self.begin_look(true);
                self.first_item(at, kept)
            },
            Progress::Ready(Ok(Some(JsonToken::EndObjectOrListItem))) => Progress::Ready(Ok(true)),
            Progress::Ready(Ok(Some(JsonToken::EndArray))) => {
                self.state = ReaderState::Object;
                Progress::Ready(Ok(false))
            },
            Progress::Ready(Ok(found)) => Progress::Ready(Err(unexpected("[ or , or ]", &found))),
            Progress::Ready(Err(error)) => Progress::Ready(Err(error)),
            Progress::NeedData => Progress::NeedData,
        }
    }

    /// Parses the text gathered since `start`.
    fn parse_gathered(&mut self, start: usize) -> (progress: Progress<
        serde_json::Map<String, serde_json::Value>,
    >)
        requires
            old(self).wf(),
            old(self)@.has_room(),
            old(self)@.stage matches Stage::Deserialize { start: s, .. } && s == start,
        ensures
            final(self).wf(),
            final(self)@.has_room(),
            (
                reply(progress, |map: serde_json::Map<String, serde_json::Value>| map),
                final(self)@,
            ) == model::parse_gathered(old(self)@, start as int),
            progress is Ready,
            old(self)@.seen.len() == 0 ==> final(self)@.at_rest(),
    {
        let parsed = parse_object(slice_subrange(contents(&self.buffer), start, self.position));
        self.preserve_buffer = false;
        self.state = ReaderState::Object;
        self.stage = Pending::Idle;
        Progress::Ready(object_result(parsed, start))
    }

    /// Refuses the text gathered since `start`, which the stream ended in.
    fn refuse_gathered(&mut self, start: usize) -> (progress: Progress<
        serde_json::Map<String, serde_json::Value>,
    >)
        requires
            old(self).wf(),
            old(self)@.has_room(),
            old(self)@.stage matches Stage::Deserialize { start: s, .. } && s == start,
        ensures
            final(self).wf(),
            final(self)@.has_room(),
            (
                reply(progress, |map: serde_json::Map<String, serde_json::Value>| map),
                final(self)@,
            ) == model::refuse_gathered(old(self)@, start as int),
            progress is Ready,
            old(self)@.seen.len() == 0 ==> final(self)@.at_rest(),
    {
        let parsed = parse_object(slice_subrange(contents(&self.buffer), start, self.position));
        self.preserve_buffer = false;
        self.state = ReaderState::Object;
        self.stage = Pending::Idle;
        Progress::Ready(cut_object_result(parsed, start, self.position))
    }

    /// Gathers tokens until no more than `floor` brackets are open, and parses them.
    /// Where the stream ends before that, the object is refused.
    fn gather(&mut self, floor: usize, start: usize) -> (progress: Progress<
        serde_json::Map<String, serde_json::Value>,
    >)
        requires
            old(self).wf(),
            old(self)@.has_room(),
            old(self)@.stage == (Stage::Deserialize {
                floor: floor as int,
                start: start as int,
                opened: true,
            }),
        ensures
            final(self).wf(),
            final(self)@.has_room(),
            (
                reply(progress, |map: serde_json::Map<String, serde_json::Value>| map),
                final(self)@,
            ) == model::gather(old(self)@, floor as int, start as int),
            progress is Ready ==> final(self)@.at_rest(),
            progress is NeedData ==> final(self)@.stage is Deserialize
                && model::fillable(final(self)@),
    {
        while self.depth > floor
            invariant
                self.wf(),
                self@.has_room(),
                self@.stage == (Stage::Deserialize {
                    floor: floor as int,
                    start: start as int,
                    opened: true,
                }),
                model::gather(self@, floor as int, start as int) == model::gather(
                    old(self)@,
                    floor as int,
                    start as int,
                ),
            decreases self@.input().len(),
        {
            proof {
                model::lemma_next_token_shrinks(self@);
            }
            match self.take_token() {
                Progress::Ready(Ok(Some(_))) => {},
                Progress::Ready(Ok(None)) => {
                    return self.refuse_gathered(start);
                },
                Progress::Ready(Err(error)) => {
                    self.preserve_buffer = false;
                    self.stage = Pending::Idle;
                    return Progress::Ready(Err(error));
                },
                Progress::NeedData => {
                    return Progress::NeedData;
                },
            }
        }
        self.parse_gathered(start)
    }

    /// Enters the object that starts at `start` and gathers it.
    fn gather_object(&mut self, floor: usize, start: usize) -> (progress: Progress<
        serde_json::Map<String, serde_json::Value>,
    >)
        requires
            old(self).wf(),
            old(self)@.has_room(),
            old(self)@.stage == (Stage::Deserialize {
                floor: floor as int,
                start: start as int,
                opened: false,
            }),
        ensures
            final(self).wf(),
            final(self)@.has_room(),
            (
                reply(progress, |map: serde_json::Map<String, serde_json::Value>| map),
                final(self)@,
            ) == model::gather_object(old(self)@, floor as int, start as int),
            progress is Ready ==> final(self)@.at_rest(),
            progress is NeedData ==> final(self)@.stage is Deserialize
                && model::fillable(final(self)@),
    {
        match self.enter_object() {
            Progress::Ready(Ok(())) => {
                self.stage = Pending::Deserialize { floor, start, opened: true };
                self.gather(floor, start)
            },
            Progress::Ready(Err(error)) => {
                self.preserve_buffer = false;
                self.stage = Pending::Idle;
                Progress::Ready(Err(error))
            },
            Progress::NeedData => Progress::NeedData,
        }
    }

    /// Reads an object and deserializes it into a JSON map.
    pub fn deserialize_object(&mut self) -> (progress: Progress<
        serde_json::Map<String, serde_json::Value>,
    >)
        requires
            old(self).wf(),
            old(self)@.has_room(),
            old(self)@.may_deserialize(),
        ensures
            final(self).wf(),
            final(self)@.has_room(),
            (
                reply(progress, |map: serde_json::Map<String, serde_json::Value>| map),
                final(self)@,
            ) == model::deserialize_object(old(self)@),
            progress is Ready ==> final(self)@.at_rest(),
            progress is NeedData ==> final(self)@.may_deserialize()
                && model::fillable(final(self)@),
    {
        if let Pending::Deserialize { floor, start, opened } = self.stage {
            if opened {
                return self.gather(floor, start);
            } else {
                return self.gather_object(floor, start);
            }
        }
        let floor = self.depth;
        let start = self.position;
        self.preserve_buffer = true;
        self.stage = Pending::Deserialize { floor, start, opened: false };
        proof {
            model::lemma_holds_nothing(self@);
        }
        self.gather_object(floor, start)
    }
}

} // verus!
