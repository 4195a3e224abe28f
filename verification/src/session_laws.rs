//! Laws on sessions: operations one after the other over a whole stream.
use vstd::prelude::*;

use crate::chunk_laws;
use crate::grammar;
use crate::model;
use crate::model::{ReaderView, Reply, Stage};
use crate::operation_laws;
use crate::operation_laws::{Answer, Operation};
use crate::read_laws;
use crate::reader_laws;
use crate::string_laws;

verus! {

/// Operations one after the other, each resumed over the reads until it is done: their
/// replies in order. An operation that still waits when the stream is over is the last.
pub open spec fn session(
    operations: Seq<Operation>,
    v: ReaderView,
    reads: Seq<Seq<u8>>,
    left: nat,
) -> Seq<Reply<Answer>>
    decreases operations.len(),
{
    if operations.len() == 0 {
        Seq::empty()
    } else {
        let (reply, x, rest) = operation_laws::over(operations[0], v, reads, left);
        if reply is NeedData {
            seq![reply]
        } else {
            seq![reply] + session(operations.drop_first(), x, rest, left)
        }
    }
}

/// The same replies, but for the positions in errors.
pub open spec fn same_replies(a: Seq<Reply<Answer>>, b: Seq<Reply<Answer>>) -> bool {
    &&& a.len() == b.len()
    &&& forall|k: int| 0 <= k < a.len() ==> chunk_laws::same_reply(#[trigger] a[k], b[k])
}

proof fn lemma_skip_rests(v: ReaderView, floor: int)
    requires
        v.sound(),
        v.depth <= floor ==> v.seen.len() == 0,
    ensures
        model::skip_rest(v, floor).0 !is NeedData ==> model::skip_rest(v, floor).1.at_rest(),
        model::skip_rest(v, floor).1.preserve == v.preserve,
    decreases v.input().len(),
{
    if v.depth > floor {
        model::lemma_next_token_shrinks(v);
        if let Reply::Ready(Some(_)) = model::next_token(v).0 {
            lemma_skip_rests(model::next_token(v).1, floor);
        }
    }
}

proof fn lemma_seek_rests(v: ReaderView, target: Seq<char>, floor: int)
    requires
        v.sound(),
    ensures
        model::seek_key(v, target, floor).0 !is NeedData ==> model::seek_key(
            v,
            target,
            floor,
        ).1.at_rest(),
        model::seek_key(v, target, floor).1.preserve == v.preserve,
    decreases v.input().len(),
{
    model::lemma_next_token_shrinks(v);
    if let Reply::Ready(Some(_)) = model::next_token(v).0 {
        lemma_seek_rests(model::next_token(v).1, target, floor);
    }
}

proof fn lemma_gather_rests(v: ReaderView, floor: int, start: int)
    requires
        v.sound(),
        v.depth <= floor ==> v.seen.len() == 0,
    ensures
        model::gather(v, floor, start).0 !is NeedData ==> model::gather(
            v,
            floor,
            start,
        ).1.at_rest(),
    decreases v.input().len(),
{
    if v.depth > floor {
        model::lemma_next_token_shrinks(v);
        if let Reply::Ready(Some(_)) = model::next_token(v).0 {
            lemma_gather_rests(model::next_token(v).1, floor, start);
        }
    }
}

proof fn lemma_key_rests(v: ReaderView)
    requires
        v.sound(),
        v.stage is Idle,
    ensures
        model::read_key(v).0 !is NeedData ==> model::read_key(v).1.at_rest(),
        model::read_key(v).1.preserve == v.preserve,
    decreases v.input().len(),
{
    model::lemma_next_token_shrinks(v);
    if let Reply::Ready(Some(_)) = model::next_token(v).0 {
        lemma_key_rests(model::next_token(v).1);
    }
}

proof fn lemma_skip_value_rests(v: ReaderView)
    requires
        chunk_laws::valid(v),
        v.may_skip(),
    ensures
        model::skip_value(v).0 !is NeedData ==> model::skip_value(v).1.at_rest(),
        model::skip_object(v).0 !is NeedData ==> model::skip_object(v).1.at_rest(),
        model::skip_value(v).1.preserve == v.preserve,
        model::skip_object(v).1.preserve == v.preserve,
{
    let w = model::next_token(v).1;
    let stage = Stage::Skip { floor: v.depth };
    model::lemma_next_token_shrinks(v);
    match v.stage {
        Stage::Skip { floor } => {
            lemma_skip_rests(v, floor);
        },
        _ => {
            if model::next_token(v).0 is Ready {
                lemma_skip_rests(w.in_stage(stage), v.depth);
                lemma_skip_rests(model::start_object(v).1.in_stage(stage), v.depth);
            }
        },
    }
}

/// An operation that is done leaves the reader at rest, so that any other may follow.
pub proof fn law_done_is_at_rest(operation: Operation, v: ReaderView)
    requires
        chunk_laws::valid(v),
        operation_laws::may(operation, v),
    ensures
        ({
            let (reply, w) = operation_laws::perform(operation, v);
            reply !is NeedData ==> w.at_rest()
        }),
{
    model::lemma_next_token_shrinks(v);
    match operation {
        Operation::ReadKey => {
            lemma_key_rests(v);
        },
        Operation::SkipValue | Operation::SkipObject => {
            lemma_skip_value_rests(v);
        },
        Operation::NextObjectEntry => {
            lemma_entry_rests(v);
        },
        Operation::SkipToKey(target) => {
            lemma_search_rests(v, target);
        },
        Operation::StartArrayItem => {
            lemma_item_rests(v);
        },
        Operation::DeserializeObject => {
            lemma_object_rests(v);
        },
        _ => {},
    }
}

proof fn lemma_entry_rests(v: ReaderView)
    requires
        chunk_laws::valid(v),
        v.may_enter(),
    ensures
        model::next_object_entry(v).0 !is NeedData ==> model::next_object_entry(v).1.at_rest(),
        model::next_object_entry(v).1.preserve == v.preserve,
{
    model::lemma_next_token_shrinks(v);
    if v.state is Value {
        lemma_skip_value_rests(v);
    }
    chunk_laws::lemma_reach_key_ready(v);
    if model::reach_key(v).0 is Ready {
        lemma_key_rests(model::reach_key(v).1);
    }
}

proof fn lemma_search_rests(v: ReaderView, target: Seq<char>)
    requires
        chunk_laws::valid(v),
        v.may_seek(),
    ensures
        model::skip_to_key(v, target).0 !is NeedData ==> model::skip_to_key(
            v,
            target,
        ).1.at_rest(),
        model::skip_to_key(v, target).1.preserve == v.preserve,
{
    match v.stage {
        Stage::SkipToKey { floor } => {
            lemma_seek_rests(v, target, floor);
        },
        _ => {
            model::lemma_next_token_shrinks(v);
            if v.state is Value {
                lemma_skip_value_rests(v);
            }
            chunk_laws::lemma_reach_key_ready(v);
            if model::reach_key(v).0 is Ready {
                let w = model::reach_key(v).1;
                lemma_seek_rests(w.in_stage(Stage::SkipToKey { floor: w.depth }), target, w.depth);
            }
        },
    }
}

/// A look for an array's first item leaves the reader at rest.
proof fn lemma_first_item_rests(v: ReaderView)
    requires
        chunk_laws::valid(v),
        v.stage is Peek,
    ensures
        ({
            let (reply, w) = model::first_item(v, v.stage->at, v.stage->kept);
            if reply is NeedData {
                w.stage == v.stage
            } else {
                w.at_rest() && w.preserve == v.stage->kept
            }
        }),
{
    let back = model::peek_rest(v, v.stage->at, v.stage->kept).1;
    chunk_laws::lemma_end_seen_is_taken(v);
    chunk_laws::lemma_looked_at(v);
    model::lemma_next_token_shrinks(v);
    if model::next_token(v).0 !is NeedData {
        assert(grammar::lex(Seq::<Option<u8>>::empty(), back.depth) is More);
        assert(back.seen =~= Seq::<Option<u8>>::empty());
        model::lemma_next_token_shrinks(back);
    }
}

proof fn lemma_item_rests(v: ReaderView)
    requires
        chunk_laws::valid(v),
        v.may_start_item(),
    ensures
        model::start_array_item(v).0 !is NeedData ==> model::start_array_item(v).1.at_rest(),
        v.frugal() ==> model::start_array_item(v).1.frugal(),
{
    model::lemma_next_token_shrinks(v);
    if v.stage is Peek {
        lemma_first_item_rests(v);
    } else if model::next_token(v).0 is Ready {
        let look = model::begin_peek(model::next_token(v).1, true);
        model::lemma_holds_nothing(look);
        lemma_first_item_rests(look);
    }
}

/// An object that is entered to be gathered, and what is gathered of it, leaves the
/// reader at rest.
proof fn lemma_gather_object_rests(v: ReaderView, floor: int, start: int)
    requires
        v.sound(),
    ensures
        model::gather_object(v, floor, start).0 !is NeedData ==> model::gather_object(
            v,
            floor,
            start,
        ).1.at_rest(),
{
    model::lemma_next_token_shrinks(v);
    if model::start_object(v).0 is Ready {
        let stage = Stage::Deserialize { floor, start, opened: true };
        lemma_gather_rests(model::start_object(v).1.in_stage(stage), floor, start);
    }
}

proof fn lemma_object_rests(v: ReaderView)
    requires
        chunk_laws::valid(v),
        v.may_deserialize(),
    ensures
        model::deserialize_object(v).0 !is NeedData ==> model::deserialize_object(v).1.at_rest(),
{
    match v.stage {
        Stage::Deserialize { floor, start, opened } => {
            if opened {
                lemma_gather_rests(v, floor, start);
            } else {
                lemma_gather_object_rests(v, floor, start);
            }
        },
        _ => {
            lemma_gather_object_rests(model::begin_gather(v), v.depth, v.position);
        },
    }
}

/// Used-up bytes are kept only while an object is gathered or a token is looked at: no
/// operation, read or cancellation, whatever it comes to, leaves them kept beyond that.
pub proof fn law_reader_is_frugal(operation: Operation, v: ReaderView, chunk: Seq<u8>)
    requires
        chunk_laws::valid(v),
        v.frugal(),
    ensures
        model::fresh().frugal(),
        model::filled(v, chunk).frugal(),
        model::cancelled(v).frugal(),
        operation_laws::may(operation, v) ==> operation_laws::perform(operation, v).1.frugal(),
{
    if operation_laws::may(operation, v) {
        let (reply, w) = operation_laws::perform(operation, v);
        model::lemma_next_token_shrinks(v);
        law_done_is_at_rest(operation, v);
        if reply is NeedData {
            operation_laws::law_waiting_operation_is_resumable(operation, v, chunk);
        }
        match operation {
            Operation::PeekToken => {
                model::lemma_next_token_shrinks(model::begin_peek(v, false));
            },
            Operation::ReadKey => {
                lemma_key_rests(v);
            },
            Operation::SkipValue | Operation::SkipObject => {
                lemma_skip_value_rests(v);
            },
            Operation::NextObjectEntry => {
                lemma_entry_rests(v);
            },
            Operation::SkipToKey(target) => {
                lemma_search_rests(v, target);
            },
            Operation::StartArrayItem => {
                lemma_item_rests(v);
            },
            Operation::DeserializeObject => {
                reader_laws::law_object_ends_keeping(v);
            },
            _ => {},
        }
    }
}

/// An operation that is done over reads leaves the reader at rest, and no empty reads.
proof fn lemma_over_rests(
    operation: Operation,
    v: ReaderView,
    reads: Seq<Seq<u8>>,
    left: nat,
)
    requires
        chunk_laws::valid(v),
        operation_laws::may(operation, v),
        read_laws::none_empty(reads),
    ensures
        ({
            let (reply, x, rest) = operation_laws::over(operation, v, reads, left);
            &&& reply !is NeedData ==> x.at_rest()
            &&& read_laws::none_empty(rest)
        }),
    decreases reads.len() + left,
{
    law_done_is_at_rest(operation, v);
    let (reply, w) = operation_laws::perform(operation, v);
    if reply is NeedData && reads.len() > 0 {
        operation_laws::law_waiting_operation_is_resumable(operation, v, reads[0]);
        let later = reads.drop_first();
        assert forall|k: int| 0 <= k < later.len() implies (#[trigger] later[k]).len() > 0 by {
            assert(later[k] == reads[k + 1]);
        }
        lemma_over_rests(operation, model::filled(w, reads[0]), later, left);
    } else if reply is NeedData && left > 0 {
        let none = Seq::<u8>::empty();
        operation_laws::law_waiting_operation_is_resumable(operation, v, none);
        lemma_over_rests(operation, model::filled(w, none), reads, (left - 1) as nat);
    }
}

/// One operation over the reads, and over the same bytes that are there already.
proof fn lemma_step(
    operation: Operation,
    x: ReaderView,
    y: ReaderView,
    reads: Seq<Seq<u8>>,
    left: nat,
)
    requires
        x.at_rest(),
        y.at_rest(),
        chunk_laws::ahead(x, y, model::events_of(string_laws::concatenated(reads))),
        read_laws::none_empty(reads),
        reads.len() > 0 ==> !x.ended,
    ensures
        ({
            let none = Seq::<Seq<u8>>::empty();
            let (one, a, rest) = operation_laws::over(operation, x, reads, left);
            let (other, b, more) = operation_laws::over(operation, y, none, left);
            &&& chunk_laws::same_reply(one, other)
            &&& chunk_laws::ahead(a, b, model::events_of(string_laws::concatenated(rest)))
            &&& more == none
            &&& read_laws::none_empty(rest)
            &&& one !is NeedData ==> {
                &&& a.at_rest()
                &&& b.at_rest()
                &&& rest.len() > 0 ==> !a.ended
            }
        }),
{
    let none = Seq::<Seq<u8>>::empty();
    let (one, a, rest) = operation_laws::over(operation, x, reads, left);
    let (other, b, more) = operation_laws::over(operation, y, none, left);
    let u = if reads.len() > 0 {
        operation_laws::with_all(x, reads)
    } else {
        x
    };
    if reads.len() > 0 {
        operation_laws::lemma_with_all(x, reads);
        operation_laws::law_operation_over_reads(operation, x, reads, left);
    } else {
        assert(reads =~= none);
        assert(x.input() + model::events_of(string_laws::concatenated(reads)) =~= x.input());
        operation_laws::lemma_over_no_reads(operation, x, left);
    }
    assert(chunk_laws::alike(u, y));
    chunk_laws::lemma_alike_ahead(u, y);
    operation_laws::law_operation_across_reads(operation, u, y, Seq::empty(), Seq::empty());
    let done = operation_laws::perform(operation, u).1;
    chunk_laws::lemma_alike_ahead(done, operation_laws::perform(operation, y).1);
    operation_laws::lemma_over_alike(operation, u, y, none, left);
    operation_laws::lemma_over_no_reads(operation, y, left);
    lemma_over_rests(operation, x, reads, left);
    lemma_over_rests(operation, y, none, left);
    let bytes = string_laws::concatenated(rest);
    let c = operation_laws::over(operation, u, none, left).1;
    assert(chunk_laws::alike(c, b));
    if reads.len() == 0 {
        assert(a.input() + model::events_of(bytes) =~= a.input());
    }
    if one !is NeedData && rest.len() > 0 && a.ended {
        // The end would stand before bytes that are still to come.
        let n = a.input().len() - 1;
        assert(a.input()[n] is None);
        assert(b.input()[n] is None);
        assert(bytes.len() > 0) by {
            assert(rest[0].len() > 0);
        }
        assert(b.input()[n] == Some(b.buffer.skip(b.position)[n]));
    }
}

/// A session gives the same replies however the stream is cut into reads.
proof fn lemma_session(
    operations: Seq<Operation>,
    x: ReaderView,
    y: ReaderView,
    reads: Seq<Seq<u8>>,
    left: nat,
)
    requires
        x.at_rest(),
        y.at_rest(),
        chunk_laws::ahead(x, y, model::events_of(string_laws::concatenated(reads))),
        read_laws::none_empty(reads),
        reads.len() > 0 ==> !x.ended,
    ensures
        same_replies(
            session(operations, x, reads, left),
            session(operations, y, Seq::empty(), left),
        ),
    decreases operations.len(),
{
    if operations.len() > 0 {
        let none = Seq::<Seq<u8>>::empty();
        lemma_step(operations[0], x, y, reads, left);
        let (one, a, rest) = operation_laws::over(operations[0], x, reads, left);
        let (other, b, more) = operation_laws::over(operations[0], y, none, left);
        if one !is NeedData {
            lemma_session(operations.drop_first(), a, b, rest, left);
            let s = session(operations.drop_first(), a, rest, left);
            let t = session(operations.drop_first(), b, none, left);
            assert forall|k: int| 0 <= k < s.len() + 1 implies chunk_laws::same_reply(
                #[trigger] (seq![one] + s)[k],
                (seq![other] + t)[k],
            ) by {
                if k > 0 {
                    assert(chunk_laws::same_reply(s[k - 1], t[k - 1]));
                }
            }
        }
    }
}

/// A session of any operations gives the same replies, but for the positions in errors,
/// however the stream is cut into reads: as it would with the whole stream there at once.
pub proof fn law_session_over_reads(
    operations: Seq<Operation>,
    v: ReaderView,
    reads: Seq<Seq<u8>>,
    left: nat,
)
    requires
        chunk_laws::valid(v),
        v.at_rest(),
        !v.ended,
        read_laws::none_empty(reads),
    ensures
        same_replies(
            session(operations, v, reads, left),
            session(operations, operation_laws::with_all(v, reads), Seq::empty(), left),
        ),
{
    operation_laws::lemma_with_all(v, reads);
    lemma_session(operations, v, operation_laws::with_all(v, reads), reads, left);
}

/// Two ways to cut the same bytes into reads make no difference to a session.
pub proof fn law_session_under_two_cuts(
    operations: Seq<Operation>,
    v: ReaderView,
    reads: Seq<Seq<u8>>,
    others: Seq<Seq<u8>>,
    left: nat,
)
    requires
        chunk_laws::valid(v),
        v.at_rest(),
        !v.ended,
        read_laws::none_empty(reads),
        read_laws::none_empty(others),
        string_laws::concatenated(reads) == string_laws::concatenated(others),
    ensures
        same_replies(session(operations, v, reads, left), session(operations, v, others, left)),
{
    law_session_over_reads(operations, v, reads, left);
    law_session_over_reads(operations, v, others, left);
    let a = session(operations, v, reads, left);
    let b = session(operations, v, others, left);
    let whole = session(operations, operation_laws::with_all(v, reads), Seq::empty(), left);
    assert forall|k: int| 0 <= k < a.len() implies chunk_laws::same_reply(
        #[trigger] a[k],
        b[k],
    ) by {
        assert(chunk_laws::same_reply(a[k], whole[k]));
        assert(chunk_laws::same_reply(b[k], whole[k]));
    }
}

} // verus!
