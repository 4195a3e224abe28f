//! Laws on whole streams, for every operation: an operation that is resumed over any
//! number of reads comes out as it would with all of them there at once.
use vstd::prelude::*;

use crate::chunk_laws;
use crate::model;
use crate::model::{ReaderView, Reply};
use crate::read_laws;
use crate::string_laws;
use crate::token::TokenView;

verus! {

/// The operations of the reader.
pub enum Operation {
    NextToken,
    PeekToken,
    StartObject,
    ReadString,
    ReadNullableString,
    ReadNumber,
    ReadBoolean,
    ReadKey,
    SkipValue,
    SkipObject,
    NextObjectEntry,
    SkipToKey(Seq<char>),
    StartArrayItem,
    DeserializeObject,
}

/// What an operation has to give.
pub enum Answer {
    Done,
    Token(Option<TokenView>),
    Text(Seq<char>),
    MaybeText(Option<Seq<char>>),
    Truth(bool),
    Object(serde_json::Map<String, serde_json::Value>),
}

/// A reply with its value as an answer.
pub open spec fn answered<T>(outcome: (Reply<T>, ReaderView), answer: spec_fn(T) -> Answer) -> (
    Reply<Answer>,
    ReaderView,
) {
    match outcome {
        (Reply::NeedData, w) => (Reply::NeedData, w),
        (Reply::Ready(value), w) => (Reply::Ready(answer(value)), w),
        (Reply::Failed(error), w) => (Reply::Failed(error), w),
    }
}

pub open spec fn token_answer() -> spec_fn(Option<TokenView>) -> Answer {
    |found: Option<TokenView>| Answer::Token(found)
}

pub open spec fn done_answer() -> spec_fn(()) -> Answer {
    |done: ()| Answer::Done
}

pub open spec fn text_answer() -> spec_fn(Seq<char>) -> Answer {
    |text: Seq<char>| Answer::Text(text)
}

pub open spec fn maybe_text_answer() -> spec_fn(Option<Seq<char>>) -> Answer {
    |text: Option<Seq<char>>| Answer::MaybeText(text)
}

pub open spec fn truth_answer() -> spec_fn(bool) -> Answer {
    |truth: bool| Answer::Truth(truth)
}

pub open spec fn object_answer() -> spec_fn(
    serde_json::Map<String, serde_json::Value>,
) -> Answer {
    |map: serde_json::Map<String, serde_json::Value>| Answer::Object(map)
}

/// An operation, performed.
pub open spec fn perform(operation: Operation, v: ReaderView) -> (Reply<Answer>, ReaderView) {
    match operation {
        Operation::NextToken => answered(model::next_token(v), token_answer()),
        Operation::PeekToken => answered(model::peek_token(v), token_answer()),
        Operation::StartObject => answered(model::start_object(v), done_answer()),
        Operation::ReadString => answered(model::read_string(v), text_answer()),
        Operation::ReadNullableString => answered(
            model::read_nullable_string(v),
            maybe_text_answer(),
        ),
        Operation::ReadNumber => answered(model::read_number_text(v), text_answer()),
        Operation::ReadBoolean => answered(model::read_boolean(v), truth_answer()),
        Operation::ReadKey => answered(model::read_key(v), maybe_text_answer()),
        Operation::SkipValue => answered(model::skip_value(v), done_answer()),
        Operation::SkipObject => answered(model::skip_object(v), done_answer()),
        Operation::NextObjectEntry => answered(model::next_object_entry(v), maybe_text_answer()),
        Operation::SkipToKey(target) => answered(model::skip_to_key(v, target), done_answer()),
        Operation::StartArrayItem => answered(model::start_array_item(v), truth_answer()),
        Operation::DeserializeObject => answered(model::deserialize_object(v), object_answer()),
    }
}

/// The operation may be called, for the first time or again.
pub open spec fn may(operation: Operation, v: ReaderView) -> bool {
    match operation {
        Operation::PeekToken => v.may_peek(),
        Operation::SkipValue => v.may_skip(),
        Operation::SkipObject => v.may_skip(),
        Operation::NextObjectEntry => v.may_enter(),
        Operation::SkipToKey(_) => v.may_seek(),
        Operation::StartArrayItem => v.may_start_item(),
        Operation::DeserializeObject => v.may_deserialize(),
        _ => v.stage is Idle,
    }
}

proof fn lemma_answered<T>(
    first: (Reply<T>, ReaderView),
    resumed: (Reply<T>, ReaderView),
    whole: (Reply<T>, ReaderView),
    later: Seq<Option<u8>>,
    chunk: Seq<u8>,
    answer: spec_fn(T) -> Answer,
)
    requires
        chunk_laws::carries(first, resumed, whole, later, chunk),
    ensures
        chunk_laws::carries(
            answered(first, answer),
            answered(resumed, answer),
            answered(whole, answer),
            later,
            chunk,
        ),
{
}

/// Every operation comes out the same for a reader that is ahead, and for one that had to
/// wait.
pub proof fn law_operation_across_reads(
    operation: Operation,
    v: ReaderView,
    u: ReaderView,
    later: Seq<Option<u8>>,
    chunk: Seq<u8>,
)
    requires
        chunk_laws::ahead(v, u, later),
        may(operation, v),
        may(operation, u),
    ensures
        chunk_laws::carries(
            perform(operation, v),
            perform(operation, model::filled(perform(operation, v).1, chunk)),
            perform(operation, u),
            later,
            chunk,
        ),
{
    let w = model::filled(perform(operation, v).1, chunk);
    match operation {
        Operation::NextToken => {
            chunk_laws::law_next_token_across_reads(v, u, later, chunk);
            lemma_answered(
                model::next_token(v),
                model::next_token(w),
                model::next_token(u),
                later,
                chunk,
                token_answer(),
            );
        },
        Operation::PeekToken => {
            chunk_laws::law_peek_token_across_reads(v, u, later, chunk);
            lemma_answered(
                model::peek_token(v),
                model::peek_token(w),
                model::peek_token(u),
                later,
                chunk,
                token_answer(),
            );
        },
        Operation::StartObject => {
            chunk_laws::law_start_object_across_reads(v, u, later, chunk);
            lemma_answered(
                model::start_object(v),
                model::start_object(w),
                model::start_object(u),
                later,
                chunk,
                done_answer(),
            );
        },
        Operation::ReadString => {
            chunk_laws::law_read_string_across_reads(v, u, later, chunk);
            lemma_answered(
                model::read_string(v),
                model::read_string(w),
                model::read_string(u),
                later,
                chunk,
                text_answer(),
            );
        },
        Operation::ReadNullableString => {
            chunk_laws::law_read_nullable_string_across_reads(v, u, later, chunk);
            lemma_answered(
                model::read_nullable_string(v),
                model::read_nullable_string(w),
                model::read_nullable_string(u),
                later,
                chunk,
                maybe_text_answer(),
            );
        },
        Operation::ReadNumber => {
            chunk_laws::law_read_number_text_across_reads(v, u, later, chunk);
            lemma_answered(
                model::read_number_text(v),
                model::read_number_text(w),
                model::read_number_text(u),
                later,
                chunk,
                text_answer(),
            );
        },
        Operation::ReadBoolean => {
            chunk_laws::law_read_boolean_across_reads(v, u, later, chunk);
            lemma_answered(
                model::read_boolean(v),
                model::read_boolean(w),
                model::read_boolean(u),
                later,
                chunk,
                truth_answer(),
            );
        },
        Operation::ReadKey => {
            chunk_laws::law_read_key_across_reads(v, u, later, chunk);
            lemma_answered(
                model::read_key(v),
                model::read_key(w),
                model::read_key(u),
                later,
                chunk,
                maybe_text_answer(),
            );
        },
        Operation::SkipValue => {
            chunk_laws::law_skip_value_across_reads(v, u, later, chunk);
            lemma_answered(
                model::skip_value(v),
                model::skip_value(w),
                model::skip_value(u),
                later,
                chunk,
                done_answer(),
            );
        },
        Operation::SkipObject => {
            chunk_laws::law_skip_object_across_reads(v, u, later, chunk);
            lemma_answered(
                model::skip_object(v),
                model::skip_object(w),
                model::skip_object(u),
                later,
                chunk,
                done_answer(),
            );
        },
        Operation::NextObjectEntry => {
            chunk_laws::law_next_object_entry_across_reads(v, u, later, chunk);
            lemma_answered(
                model::next_object_entry(v),
                model::next_object_entry(w),
                model::next_object_entry(u),
                later,
                chunk,
                maybe_text_answer(),
            );
        },
        Operation::SkipToKey(target) => {
            chunk_laws::law_skip_to_key_across_reads(v, u, later, chunk, target);
            lemma_answered(
                model::skip_to_key(v, target),
                model::skip_to_key(w, target),
                model::skip_to_key(u, target),
                later,
                chunk,
                done_answer(),
            );
        },
        Operation::StartArrayItem => {
            chunk_laws::law_start_array_item_across_reads(v, u, later, chunk);
            lemma_answered(
                model::start_array_item(v),
                model::start_array_item(w),
                model::start_array_item(u),
                later,
                chunk,
                truth_answer(),
            );
        },
        Operation::DeserializeObject => {
            chunk_laws::law_deserialize_object_across_reads(v, u, later, chunk);
            lemma_answered(
                model::deserialize_object(v),
                model::deserialize_object(w),
                model::deserialize_object(u),
                later,
                chunk,
                object_answer(),
            );
        },
    }
}

/// An operation that waits may be called again, after any read.
pub proof fn law_waiting_operation_is_resumable(
    operation: Operation,
    v: ReaderView,
    chunk: Seq<u8>,
)
    requires
        chunk_laws::valid(v),
        may(operation, v),
        perform(operation, v).0 is NeedData,
    ensures
        ({
            let w = perform(operation, v).1;
            &&& chunk_laws::valid(w)
            &&& chunk_laws::waiting(w)
            &&& model::fillable(w)
            &&& chunk_laws::valid(model::filled(w, chunk))
            &&& may(operation, model::filled(w, chunk))
        }),
{
    let none = Seq::<Option<u8>>::empty();
    let w = perform(operation, v).1;
    chunk_laws::lemma_alike_ahead(v, v);
    law_operation_across_reads(operation, v, v, none, chunk);
    model::lemma_next_token_shrinks(v);
    chunk_laws::law_waiting_reader_can_be_filled(v, Seq::empty());
    match operation {
        Operation::ReadKey => {
            chunk_laws::law_read_key_across_reads(v, v, none, chunk);
        },
        Operation::SkipValue => {
            chunk_laws::law_skip_value_across_reads(v, v, none, chunk);
        },
        Operation::SkipObject => {
            chunk_laws::law_skip_object_across_reads(v, v, none, chunk);
        },
        Operation::NextObjectEntry => {
            chunk_laws::law_next_object_entry_across_reads(v, v, none, chunk);
        },
        Operation::SkipToKey(target) => {
            chunk_laws::law_skip_to_key_across_reads(v, v, none, chunk, target);
            chunk_laws::law_waiting_reader_can_be_filled(v, target);
        },
        Operation::PeekToken => {
            chunk_laws::law_peek_token_across_reads(v, v, none, chunk);
        },
        Operation::StartArrayItem => {
            chunk_laws::law_start_array_item_across_reads(v, v, none, chunk);
        },
        Operation::DeserializeObject => {
            chunk_laws::law_deserialize_object_across_reads(v, v, none, chunk);
        },
        _ => {},
    }
    model::lemma_filled_coherent(w, chunk);
}

/// An operation, called until it is done: as long as it waits, the reader gets the next
/// read, and after the last one a report of the end, `left` of them at most.
pub open spec fn over(
    operation: Operation,
    v: ReaderView,
    reads: Seq<Seq<u8>>,
    left: nat,
) -> (Reply<Answer>, ReaderView, Seq<Seq<u8>>)
    decreases reads.len() + left,
{
    let (reply, w) = perform(operation, v);
    if reply is NeedData && reads.len() > 0 {
        over(operation, model::filled(w, reads[0]), reads.drop_first(), left)
    } else if reply is NeedData && left > 0 {
        over(operation, model::filled(w, Seq::empty()), reads, (left - 1) as nat)
    } else {
        (reply, w, reads)
    }
}

/// The reader with the bytes of all these reads in its buffer.
pub open spec fn with_all(v: ReaderView, reads: Seq<Seq<u8>>) -> ReaderView {
    ReaderView { buffer: v.buffer + string_laws::concatenated(reads), ..v }
}

/// A read keeps readers alike.
proof fn lemma_filled_alike(a: ReaderView, b: ReaderView, chunk: Seq<u8>)
    requires
        chunk_laws::alike(a, b),
        chunk_laws::waiting(a),
        chunk_laws::waiting(b),
    ensures
        chunk_laws::alike(model::filled(a, chunk), model::filled(b, chunk)),
{
    model::lemma_filled_coherent(a, chunk);
    model::lemma_filled_coherent(b, chunk);
    let x = model::filled(a, chunk);
    let y = model::filled(b, chunk);
    assert(x.input() =~= a.input() + chunk_laws::arrivals(chunk));
    assert(y.input() =~= b.input() + chunk_laws::arrivals(chunk));
    assert(chunk_laws::gathered(x) =~= chunk_laws::gathered(a));
    assert(chunk_laws::gathered(y) =~= chunk_laws::gathered(b));
}

/// Where an operation comes out the same at first, it comes out the same over the reads.
pub proof fn lemma_over_alike(
    operation: Operation,
    a: ReaderView,
    b: ReaderView,
    reads: Seq<Seq<u8>>,
    left: nat,
)
    requires
        chunk_laws::valid(a),
        chunk_laws::valid(b),
        may(operation, a),
        may(operation, b),
        chunk_laws::same_outcome(perform(operation, a), perform(operation, b)),
    ensures
        ({
            let (one, x, rest) = over(operation, a, reads, left);
            let (other, y, more) = over(operation, b, reads, left);
            &&& chunk_laws::same_reply(one, other)
            &&& chunk_laws::alike(x, y)
            &&& rest == more
        }),
    decreases reads.len() + left,
{
    if perform(operation, a).0 is NeedData && (reads.len() > 0 || left > 0) {
        let chunk = if reads.len() > 0 {
            reads[0]
        } else {
            Seq::empty()
        };
        law_waiting_operation_is_resumable(operation, a, chunk);
        law_waiting_operation_is_resumable(operation, b, chunk);
        let x = model::filled(perform(operation, a).1, chunk);
        let y = model::filled(perform(operation, b).1, chunk);
        lemma_filled_alike(perform(operation, a).1, perform(operation, b).1, chunk);
        chunk_laws::lemma_alike_ahead(x, y);
        law_operation_across_reads(operation, x, y, Seq::empty(), Seq::empty());
        chunk_laws::lemma_alike_ahead(perform(operation, x).1, perform(operation, y).1);
        if reads.len() > 0 {
            lemma_over_alike(operation, x, y, reads.drop_first(), left);
        } else {
            lemma_over_alike(operation, x, y, reads, (left - 1) as nat);
        }
    }
}

/// A reader with reads in its buffer is ahead by their bytes.
pub proof fn lemma_with_all(v: ReaderView, reads: Seq<Seq<u8>>)
    requires
        chunk_laws::valid(v),
        !v.ended,
    ensures
        chunk_laws::ahead(
            v,
            with_all(v, reads),
            model::events_of(string_laws::concatenated(reads)),
        ),
{
    let u = with_all(v, reads);
    let more = string_laws::concatenated(reads);
    assert(u.input() =~= v.input() + model::events_of(more));
    if v.stage is Deserialize || v.stage is Peek {
        assert(u.buffer.subrange(v.position - v.lag(), v.position) =~= model::bytes_of(v.seen));
    }
    assert(chunk_laws::gathered(u) =~= chunk_laws::gathered(v));
}

/// With no reads, the reader is what it is.
proof fn lemma_over_self(operation: Operation, v: ReaderView, left: nat)
    requires
        chunk_laws::valid(v),
        may(operation, v),
    ensures
        ({
            let (reply, x, rest) = over(operation, v, Seq::empty(), left);
            &&& chunk_laws::valid(x)
            &&& rest == Seq::<Seq<u8>>::empty()
            &&& chunk_laws::ahead(x, x, model::events_of(Seq::<u8>::empty()))
        }),
{
    chunk_laws::lemma_alike_ahead(v, v);
    law_operation_across_reads(operation, v, v, Seq::empty(), Seq::empty());
    chunk_laws::lemma_alike_ahead(perform(operation, v).1, perform(operation, v).1);
    lemma_over_alike(operation, v, v, Seq::empty(), left);
    let x = over(operation, v, Seq::empty(), left).1;
    chunk_laws::lemma_alike_ahead(x, x);
    assert(model::events_of(Seq::<u8>::empty()) =~= Seq::<Option<u8>>::empty());
    lemma_over_no_reads(operation, v, left);
}

pub proof fn lemma_over_no_reads(operation: Operation, v: ReaderView, left: nat)
    ensures
        over(operation, v, Seq::empty(), left).2 == Seq::<Seq<u8>>::empty(),
    decreases left,
{
    if left > 0 {
        lemma_over_no_reads(
            operation,
            model::filled(perform(operation, v).1, Seq::empty()),
            (left - 1) as nat,
        );
    }
}

/// However the bytes are cut into reads, an operation that is resumed over them comes out as
/// it would with all of them there at once: the reply is the same but for the position in an
/// error, and so is what is behind and before the reader, the reads it did not need included.
pub proof fn law_operation_over_reads(
    operation: Operation,
    v: ReaderView,
    reads: Seq<Seq<u8>>,
    left: nat,
)
    requires
        chunk_laws::valid(v),
        !v.ended,
        may(operation, v),
        read_laws::none_empty(reads),
    ensures
        ({
            let (reply, x, rest) = over(operation, v, reads, left);
            let (whole, y, _) = over(operation, with_all(v, reads), Seq::empty(), left);
            &&& chunk_laws::same_reply(reply, whole)
            &&& chunk_laws::ahead(x, y, model::events_of(string_laws::concatenated(rest)))
        }),
    decreases reads.len(),
{
    let w = with_all(v, reads);
    let bytes = string_laws::concatenated(reads);
    lemma_with_all(v, reads);
    if reads.len() == 0 {
        assert(reads =~= Seq::<Seq<u8>>::empty());
        assert(v.buffer + bytes =~= v.buffer);
        assert(w == v);
        lemma_over_self(operation, v, left);
    } else if perform(operation, v).0 is NeedData {
        let c = reads[0];
        let later = reads.drop_first();
        let u = with_all(v, seq![c]);
        assert(string_laws::concatenated(seq![c]) =~= c) by {
            assert(seq![c].drop_first() =~= Seq::<Seq<u8>>::empty());
            assert(c + Seq::<u8>::empty() =~= c);
            reveal_with_fuel(string_laws::concatenated, 2);
        }
        lemma_with_all(v, seq![c]);
        law_operation_across_reads(operation, v, u, chunk_laws::arrivals(c), c);
        law_waiting_operation_is_resumable(operation, v, c);
        lemma_over_alike(operation, model::filled(perform(operation, v).1, c), u, later, left);
        assert forall|k: int| 0 <= k < later.len() implies (#[trigger] later[k]).len() > 0 by {
            assert(later[k] == reads[k + 1]);
        }
        law_operation_over_reads(operation, u, later, left);
        assert(with_all(u, later).buffer =~= w.buffer);
        assert(with_all(u, later) == w);
    } else {
        law_operation_across_reads(
            operation,
            v,
            w,
            model::events_of(bytes),
            Seq::empty(),
        );
    }
}

/// An operation comes out the same however the bytes are cut into reads: with the same
/// reply, but for the position in an error, at the same depth and in the same state, and
/// with the same bytes still to come, be they in the buffer or in reads that it did not need.
pub proof fn law_operation_under_two_cuts(
    operation: Operation,
    v: ReaderView,
    reads: Seq<Seq<u8>>,
    others: Seq<Seq<u8>>,
    left: nat,
)
    requires
        chunk_laws::valid(v),
        !v.ended,
        may(operation, v),
        read_laws::none_empty(reads),
        read_laws::none_empty(others),
        string_laws::concatenated(reads) == string_laws::concatenated(others),
    ensures
        ({
            let (one, x, rest) = over(operation, v, reads, left);
            let (other, y, more) = over(operation, v, others, left);
            &&& chunk_laws::same_reply(one, other)
            &&& x.depth == y.depth
            &&& x.state == y.state
            &&& chunk_laws::same_stage(x, y)
            &&& x.input() + model::events_of(string_laws::concatenated(rest)) == y.input()
                + model::events_of(string_laws::concatenated(more))
        }),
{
    law_operation_over_reads(operation, v, reads, left);
    law_operation_over_reads(operation, v, others, left);
}

} // verus!
