//! Laws on chunk boundaries: how the stream is cut into reads makes no difference.
//!
//! Two readers are alike if they have the same input before them and the same past
//! behind them as far as operations go; where their buffers begin may differ, and
//! so may the positions in error messages, which count from there.
use vstd::prelude::*;

use crate::error::ErrorView;
use crate::grammar;
use crate::grammar::Lexed;
use crate::model;
use crate::model::{ReaderView, Reply, Stage};
use crate::place::Place;
use crate::token::TokenView;

verus! {

/// The same error, but for the position.
pub open spec fn same_error(a: ErrorView, b: ErrorView) -> bool {
    match (a, b) {
        (ErrorView::JsonError { error: e, .. }, ErrorView::JsonError { error: f, .. }) => e == f,
        _ => a == b,
    }
}

/// The same reply, but for the position in an error.
pub open spec fn same_reply<T>(a: Reply<T>, b: Reply<T>) -> bool {
    match (a, b) {
        (Reply::Failed(e), Reply::Failed(f)) => same_error(e, f),
        _ => a == b,
    }
}

/// The bytes of the complete tokens that a waiting `deserialize_object` has gathered.
pub open spec fn gathered(v: ReaderView) -> Seq<u8> {
    match v.stage {
        Stage::Deserialize { start, .. } => v.buffer.subrange(start, v.position - v.lag()),
        _ => Seq::empty(),
    }
}

/// The same operation waits, or none.
pub open spec fn same_stage(a: ReaderView, b: ReaderView) -> bool {
    match (a.stage, b.stage) {
        (
            Stage::Deserialize { floor: f, opened: o, .. },
            Stage::Deserialize { floor: g, opened: p, .. },
        ) => f == g && o == p && gathered(a) == gathered(b),
        (Stage::Peek { item: i, .. }, Stage::Peek { item: j, .. }) => i == j,
        _ => a.stage == b.stage,
    }
}

/// The reader is one that operations can leave behind.
pub open spec fn valid(v: ReaderView) -> bool {
    v.sound() && v.coherent()
}

/// Both readers have the same before them and behind them.
pub open spec fn alike(a: ReaderView, b: ReaderView) -> bool {
    &&& valid(a)
    &&& valid(b)
    &&& a.input() == b.input()
    &&& a.depth == b.depth
    &&& a.state == b.state
    &&& same_stage(a, b)
}

/// The events that a read brings.
pub open spec fn arrivals(chunk: Seq<u8>) -> Seq<Option<u8>> {
    if chunk.len() == 0 {
        seq![None]
    } else {
        model::events_of(chunk)
    }
}

/// Reader `u` is like `v`, but the events `later` have come already.
pub open spec fn ahead(v: ReaderView, u: ReaderView, later: Seq<Option<u8>>) -> bool {
    &&& valid(v)
    &&& valid(u)
    &&& u.input() == v.input() + later
    &&& u.depth == v.depth
    &&& u.state == v.state
    &&& same_stage(v, u)
}

/// The same came out of an operation.
pub open spec fn same_outcome<T>(a: (Reply<T>, ReaderView), b: (Reply<T>, ReaderView)) -> bool {
    same_reply(a.0, b.0) && alike(a.1, b.1)
}

/// What came out for `v`, and for `u`, which was ahead by `later`: where the operation
/// was finished without that, it came out the same.
pub open spec fn unaffected<T>(
    a: (Reply<T>, ReaderView),
    b: (Reply<T>, ReaderView),
    later: Seq<Option<u8>>,
) -> bool {
    if a.0 is NeedData {
        later.len() == 0 ==> b.0 is NeedData && alike(a.1, b.1)
    } else {
        same_reply(a.0, b.0) && ahead(a.1, b.1, later)
    }
}

proof fn lemma_bytes_of_concat(a: Seq<Option<u8>>, b: Seq<Option<u8>>)
    ensures
        model::bytes_of(a + b) == model::bytes_of(a) + model::bytes_of(b),
    decreases b.len(),
{
    if b.len() == 0 {
        assert(a + b =~= a);
        assert(model::bytes_of(a) + model::bytes_of(b) =~= model::bytes_of(a));
    } else {
        lemma_bytes_of_concat(a, b.drop_last());
        assert((a + b).drop_last() =~= a + b.drop_last());
        assert(model::bytes_of(a + b) =~= model::bytes_of(a) + model::bytes_of(b));
    }
}

/// Using up part of the input leaves the rest.
pub proof fn lemma_past(v: ReaderView, n: int)
    requires
        valid(v),
        v.seen.len() <= n <= v.input().len(),
    ensures
        v.past(n).input() == v.input().skip(n),
        v.past(n).sound(),
        !(v.stage is Peek) ==> v.past(n).coherent(),
        v.stage is Deserialize ==> gathered(v.past(n)) == gathered(v) + model::bytes_of(
            v.input().take(n),
        ),
{
    let w = v.past(n);
    assert(w.input() =~= v.input().skip(n));
    model::lemma_holds_nothing(w);
    if let Stage::Deserialize { start, .. } = v.stage {
        let used = v.input().take(n);
        let bytes = v.buffer.subrange(v.position, w.position);
        let both = v.seen + model::events_of(bytes);
        model::lemma_bytes_of_append(v.seen, bytes);
        if v.ended && !w.ended {
            assert(used.drop_last() =~= both);
        } else {
            assert(used =~= both);
        }
        assert(model::bytes_of(used) == model::bytes_of(v.seen) + bytes);
        assert(gathered(w) =~= gathered(v) + model::bytes_of(used));
    }
}

/// Waiting for data leaves the input as it is, and a read adds to it.
pub proof fn lemma_wait(v: ReaderView, chunk: Seq<u8>)
    requires
        valid(v),
        v.inside(),
        grammar::lex(v.input(), v.depth) is More,
    ensures
        valid(v.exhausted()),
        v.exhausted().input() == v.input(),
        gathered(v.exhausted()) == gathered(v),
        model::fillable(v.exhausted()),
        valid(model::filled(v.exhausted(), chunk)),
        model::filled(v.exhausted(), chunk).input() == v.input() + arrivals(chunk),
        gathered(model::filled(v.exhausted(), chunk)) == gathered(v),
{
    let w = v.exhausted();
    let x = model::filled(w, chunk);
    model::lemma_exhausted_coherent(v);
    assert(w.input() =~= v.input());
    model::lemma_filled_coherent(w, chunk);
    assert(x.input() =~= v.input() + arrivals(chunk));
    assert(gathered(w) =~= gathered(v));
    assert(gathered(x) =~= gathered(v));
}

/// What is found takes in at least the part of the token that was used up.
pub proof fn lemma_found_beyond_seen(v: ReaderView)
    requires
        v.sound(),
    ensures
        match grammar::lex(v.input(), v.depth) {
            Lexed::More => true,
            Lexed::End { len } => v.seen.len() <= len <= v.input().len(),
            Lexed::Token { len, .. } => v.seen.len() <= len <= v.input().len(),
            Lexed::Flaw { len, .. } => v.seen.len() <= len <= v.input().len(),
        },
{
    Place::Start.lemma_partial(v.seen, v.feed(), 0, v.depth);
    Place::Start.lemma_bounds(v.input(), 0, v.depth);
}

/// The reader waits where its input stops short, and then only.
pub proof fn lemma_waits(v: ReaderView)
    ensures
        (model::next_token(v).0 is NeedData) == (grammar::lex(v.input(), v.depth) is More),
        model::next_token(v).0 is NeedData ==> model::next_token(v).1 == v.exhausted(),
{
    reveal(model::next_token);
}

/// To be alike is to be ahead by nothing.
pub proof fn lemma_alike_ahead(a: ReaderView, b: ReaderView)
    ensures
        alike(a, b) == ahead(a, b, Seq::empty()),
{
    assert(a.input() + Seq::<Option<u8>>::empty() =~= a.input());
}

/// A reader that waited for what another one had all along is then like it.
proof fn lemma_caught_up(v: ReaderView, u: ReaderView, chunk: Seq<u8>)
    requires
        ahead(v, u, arrivals(chunk)),
        v.inside(),
        grammar::lex(v.input(), v.depth) is More,
    ensures
        alike(model::filled(v.exhausted(), chunk), u),
        ahead(model::filled(v.exhausted(), chunk), u, Seq::empty()),
        model::filled(v.exhausted(), chunk).stage == v.stage,
{
    lemma_wait(v, chunk);
    lemma_alike_ahead(model::filled(v.exhausted(), chunk), u);
}

/// The next token is the same for a reader that is ahead. What a look leaves behind is
/// not spoken of.
proof fn lemma_next_token(v: ReaderView, u: ReaderView, later: Seq<Option<u8>>)
    requires
        ahead(v, u, later),
        v.inside(),
    ensures
        model::next_token(v).0 !is NeedData ==> same_reply(
            model::next_token(v).0,
            model::next_token(u).0,
        ),
        !(v.stage is Peek) ==> unaffected(model::next_token(v), model::next_token(u), later),
        model::next_token(v).0 is NeedData && later.len() == 0 ==> {
            &&& model::next_token(u).0 is NeedData
            &&& alike(model::next_token(v).1, model::next_token(u).1)
        },
{
    reveal(model::next_token);
    lemma_found_beyond_seen(v);
    lemma_found_beyond_seen(u);
    Place::Start.lemma_stable(v.input(), later, 0, v.depth);
    match grammar::lex(v.input(), v.depth) {
        Lexed::More => {
            if later.len() == 0 {
                assert(u.input() =~= v.input());
                lemma_wait(v, Seq::empty());
                lemma_wait(u, Seq::empty());
            }
        },
        Lexed::End { len } => {
            lemma_past_ahead(v, u, later, len);
        },
        Lexed::Token { len, .. } => {
            lemma_past_ahead(v, u, later, len);
        },
        Lexed::Flaw { len, .. } => {
            lemma_past_ahead(v, u, later, len);
        },
    }
}

/// Using up the same keeps one reader ahead of the other.
proof fn lemma_past_ahead(v: ReaderView, u: ReaderView, later: Seq<Option<u8>>, n: int)
    requires
        ahead(v, u, later),
        v.seen.len() <= n <= v.input().len(),
        u.seen.len() <= n,
    ensures
        !(v.stage is Peek) ==> ahead(v.past(n), u.past(n), later),
{
    lemma_past(v, n);
    lemma_past(u, n);
    assert(u.input().skip(n) =~= v.input().skip(n) + later);
    assert(u.input().take(n) =~= v.input().take(n));
}

/// An operation on `v` came out as `first`, on `u`, which was ahead by `later`, as
/// `whole`, and resumed after a read of `chunk` as `resumed`: an operation that
/// was finished at once is the same on both, and one that had to wait for `later` is
/// the same once resumed.
pub open spec fn carries<T>(
    first: (Reply<T>, ReaderView),
    resumed: (Reply<T>, ReaderView),
    whole: (Reply<T>, ReaderView),
    later: Seq<Option<u8>>,
    chunk: Seq<u8>,
) -> bool {
    &&& unaffected(first, whole, later)
    &&& first.0 is NeedData && later == arrivals(chunk) ==> same_outcome(resumed, whole)
}

/// The next token is the same however the data arrives: a reader that has to wait for it
/// gets the same one as a reader that had the data all along.
pub proof fn law_next_token_across_reads(
    v: ReaderView,
    u: ReaderView,
    later: Seq<Option<u8>>,
    chunk: Seq<u8>,
)
    requires
        ahead(v, u, later),
        !(v.stage is Peek),
        v.inside(),
    ensures
        carries(
            model::next_token(v),
            model::next_token(model::filled(model::next_token(v).1, chunk)),
            model::next_token(u),
            later,
            chunk,
        ),
{
    lemma_next_token(v, u, later);
    if model::next_token(v).0 is NeedData && later == arrivals(chunk) {
        lemma_waits(v);
        let x = model::filled(v.exhausted(), chunk);
        lemma_caught_up(v, u, chunk);
        lemma_next_token(x, u, Seq::empty());
        lemma_alike_ahead(model::next_token(x).1, model::next_token(u).1);
    }
}

/// Entering an object is the same however the data arrives.
pub proof fn law_start_object_across_reads(
    v: ReaderView,
    u: ReaderView,
    later: Seq<Option<u8>>,
    chunk: Seq<u8>,
)
    requires
        ahead(v, u, later),
        !(v.stage is Peek),
        v.inside(),
    ensures
        carries(
            model::start_object(v),
            model::start_object(model::filled(model::start_object(v).1, chunk)),
            model::start_object(u),
            later,
            chunk,
        ),
{
    law_next_token_across_reads(v, u, later, chunk);
}

/// A string is read the same however the data arrives.
pub proof fn law_read_string_across_reads(
    v: ReaderView,
    u: ReaderView,
    later: Seq<Option<u8>>,
    chunk: Seq<u8>,
)
    requires
        ahead(v, u, later),
        !(v.stage is Peek),
        v.inside(),
    ensures
        carries(
            model::read_string(v),
            model::read_string(model::filled(model::read_string(v).1, chunk)),
            model::read_string(u),
            later,
            chunk,
        ),
{
    law_next_token_across_reads(v, u, later, chunk);
}

/// A string or null is read the same however the data arrives.
pub proof fn law_read_nullable_string_across_reads(
    v: ReaderView,
    u: ReaderView,
    later: Seq<Option<u8>>,
    chunk: Seq<u8>,
)
    requires
        ahead(v, u, later),
        !(v.stage is Peek),
        v.inside(),
    ensures
        carries(
            model::read_nullable_string(v),
            model::read_nullable_string(model::filled(model::read_nullable_string(v).1, chunk)),
            model::read_nullable_string(u),
            later,
            chunk,
        ),
{
    law_next_token_across_reads(v, u, later, chunk);
}

/// A number is read the same however the data arrives.
pub proof fn law_read_number_text_across_reads(
    v: ReaderView,
    u: ReaderView,
    later: Seq<Option<u8>>,
    chunk: Seq<u8>,
)
    requires
        ahead(v, u, later),
        !(v.stage is Peek),
        v.inside(),
    ensures
        carries(
            model::read_number_text(v),
            model::read_number_text(model::filled(model::read_number_text(v).1, chunk)),
            model::read_number_text(u),
            later,
            chunk,
        ),
{
    law_next_token_across_reads(v, u, later, chunk);
}

/// A boolean is read the same however the data arrives.
pub proof fn law_read_boolean_across_reads(
    v: ReaderView,
    u: ReaderView,
    later: Seq<Option<u8>>,
    chunk: Seq<u8>,
)
    requires
        ahead(v, u, later),
        !(v.stage is Peek),
        v.inside(),
    ensures
        carries(
            model::read_boolean(v),
            model::read_boolean(model::filled(model::read_boolean(v).1, chunk)),
            model::read_boolean(u),
            later,
            chunk,
        ),
{
    law_next_token_across_reads(v, u, later, chunk);
}

/// A key is read the same however the data arrives.
pub proof fn law_read_key_across_reads(
    v: ReaderView,
    u: ReaderView,
    later: Seq<Option<u8>>,
    chunk: Seq<u8>,
)
    requires
        ahead(v, u, later),
        v.stage is Idle,
    ensures
        carries(
            model::read_key(v),
            model::read_key(model::filled(model::read_key(v).1, chunk)),
            model::read_key(u),
            later,
            chunk,
        ),
        model::read_key(v).0 is NeedData ==> {
            &&& model::read_key(v).1.stage == v.stage
            &&& model::read_key(v).1.state == v.state
            &&& model::read_key(v).1.sound()
        },
    decreases u.input().len(), later.len(),
{
    law_next_token_across_reads(v, u, later, chunk);
    model::lemma_next_token_shrinks(v);
    model::lemma_next_token_shrinks(u);
    let w = model::next_token(v).1;
    match model::next_token(v).0 {
        Reply::Ready(Some(TokenView::EndObjectOrListItem)) => {
            law_read_key_across_reads(w, model::next_token(u).1, later, chunk);
        },
        Reply::NeedData => {
            if later == arrivals(chunk) {
                let x = model::filled(w, chunk);
                lemma_waits(v);
                lemma_caught_up(v, u, chunk);
                law_read_key_across_reads(x, u, Seq::empty(), chunk);
                lemma_alike_ahead(model::read_key(x).1, model::read_key(u).1);
            }
        },
        _ => {},
    }
}

/// The rest of a value.
proof fn lemma_skip_rest_carries(
    v: ReaderView,
    u: ReaderView,
    later: Seq<Option<u8>>,
    chunk: Seq<u8>,
    floor: int,
)
    requires
        ahead(v, u, later),
        v.stage == (Stage::Skip { floor }),
    ensures
        carries(
            model::skip_rest(v, floor),
            model::skip_rest(model::filled(model::skip_rest(v, floor).1, chunk), floor),
            model::skip_rest(u, floor),
            later,
            chunk,
        ),
        model::skip_rest(v, floor).0 is NeedData ==> {
            &&& model::skip_rest(v, floor).1.stage == v.stage
            &&& model::skip_rest(v, floor).1.state == v.state
            &&& model::skip_rest(v, floor).1.sound()
        },
    decreases u.input().len(), later.len(),
{
    if v.depth > floor {
        law_next_token_across_reads(v, u, later, chunk);
        model::lemma_next_token_shrinks(v);
        model::lemma_next_token_shrinks(u);
        let w = model::next_token(v).1;
        match model::next_token(v).0 {
            Reply::Ready(Some(_)) => {
                lemma_skip_rest_carries(w, model::next_token(u).1, later, chunk, floor);
            },
            Reply::NeedData => {
                if later == arrivals(chunk) {
                    let x = model::filled(w, chunk);
                    lemma_waits(v);
                    lemma_caught_up(v, u, chunk);
                    lemma_skip_rest_carries(x, u, Seq::empty(), chunk, floor);
                    lemma_alike_ahead(model::skip_rest(x, floor).1, model::skip_rest(u, floor).1);
                }
            },
            _ => {},
        }
    }
}

/// The search for a key.
proof fn lemma_seek_key_carries(
    v: ReaderView,
    u: ReaderView,
    later: Seq<Option<u8>>,
    chunk: Seq<u8>,
    target: Seq<char>,
    floor: int,
)
    requires
        ahead(v, u, later),
        v.stage is SkipToKey,
    ensures
        carries(
            model::seek_key(v, target, floor),
            model::seek_key(
                model::filled(model::seek_key(v, target, floor).1, chunk),
                target,
                floor,
            ),
            model::seek_key(u, target, floor),
            later,
            chunk,
        ),
        model::seek_key(v, target, floor).0 is NeedData ==> {
            &&& model::seek_key(v, target, floor).1.stage == v.stage
            &&& model::seek_key(v, target, floor).1.state == v.state
            &&& model::seek_key(v, target, floor).1.sound()
        },
    decreases u.input().len(), later.len(),
{
    law_next_token_across_reads(v, u, later, chunk);
    model::lemma_next_token_shrinks(v);
    model::lemma_next_token_shrinks(u);
    let w = model::next_token(v).1;
    match model::next_token(v).0 {
        Reply::Ready(Some(_)) => {
            lemma_seek_key_carries(w, model::next_token(u).1, later, chunk, target, floor);
        },
        Reply::NeedData => {
            if later == arrivals(chunk) {
                let x = model::filled(w, chunk);
                lemma_waits(v);
                lemma_caught_up(v, u, chunk);
                lemma_seek_key_carries(x, u, Seq::empty(), chunk, target, floor);
                lemma_alike_ahead(
                    model::seek_key(x, target, floor).1,
                    model::seek_key(u, target, floor).1,
                );
            }
        },
        _ => {},
    }
}

/// A value is skipped the same however the data arrives.
pub proof fn law_skip_value_across_reads(
    v: ReaderView,
    u: ReaderView,
    later: Seq<Option<u8>>,
    chunk: Seq<u8>,
)
    requires
        ahead(v, u, later),
        v.may_skip(),
    ensures
        carries(
            model::skip_value(v),
            model::skip_value(model::filled(model::skip_value(v).1, chunk)),
            model::skip_value(u),
            later,
            chunk,
        ),
        model::skip_value(v).0 is NeedData ==> {
            &&& model::skip_value(v).1.state == v.state
            &&& model::skip_value(v).1.sound()
            &&& model::skip_value(v).1.may_skip()
        },
    decreases later.len(),
{
    if let Stage::Skip { floor } = v.stage {
        lemma_skip_rest_carries(v, u, later, chunk, floor);
    } else {
        law_next_token_across_reads(v, u, later, chunk);
        model::lemma_next_token_shrinks(v);
        model::lemma_next_token_shrinks(u);
        let w = model::next_token(v).1;
        match model::next_token(v).0 {
            Reply::Ready(Some(TokenView::StartObject)) | Reply::Ready(
                Some(TokenView::StartArray),
            ) => {
                let stage = Stage::Skip { floor: v.depth };
                let y = model::next_token(u).1;
                lemma_skip_rest_carries(
                    w.in_stage(stage),
                    y.in_stage(stage),
                    later,
                    chunk,
                    v.depth,
                );
            },
            Reply::NeedData => {
                if later == arrivals(chunk) {
                    let x = model::filled(w, chunk);
                    lemma_waits(v);
                    lemma_caught_up(v, u, chunk);
                    law_skip_value_across_reads(x, u, Seq::empty(), chunk);
                    lemma_alike_ahead(model::skip_value(x).1, model::skip_value(u).1);
                }
            },
            _ => {},
        }
    }
}

/// An object is skipped the same however the data arrives.
pub proof fn law_skip_object_across_reads(
    v: ReaderView,
    u: ReaderView,
    later: Seq<Option<u8>>,
    chunk: Seq<u8>,
)
    requires
        ahead(v, u, later),
        v.may_skip(),
    ensures
        carries(
            model::skip_object(v),
            model::skip_object(model::filled(model::skip_object(v).1, chunk)),
            model::skip_object(u),
            later,
            chunk,
        ),
        model::skip_object(v).0 is NeedData ==> model::skip_object(v).1.may_skip(),
    decreases later.len(),
{
    if let Stage::Skip { floor } = v.stage {
        lemma_skip_rest_carries(v, u, later, chunk, floor);
    } else {
        law_start_object_across_reads(v, u, later, chunk);
        model::lemma_next_token_shrinks(v);
        model::lemma_next_token_shrinks(u);
        let w = model::start_object(v).1;
        match model::start_object(v).0 {
            Reply::Ready(_) => {
                let stage = Stage::Skip { floor: v.depth };
                let y = model::start_object(u).1;
                lemma_skip_rest_carries(
                    w.in_stage(stage),
                    y.in_stage(stage),
                    later,
                    chunk,
                    v.depth,
                );
            },
            Reply::NeedData => {
                if later == arrivals(chunk) {
                    let x = model::filled(w, chunk);
                    lemma_waits(v);
                    lemma_caught_up(v, u, chunk);
                    law_skip_object_across_reads(x, u, Seq::empty(), chunk);
                    lemma_alike_ahead(model::skip_object(x).1, model::skip_object(u).1);
                }
            },
            _ => {},
        }
    }
}

/// The way to the next key.
proof fn lemma_reach_key_carries(
    v: ReaderView,
    u: ReaderView,
    later: Seq<Option<u8>>,
    chunk: Seq<u8>,
)
    requires
        ahead(v, u, later),
        v.may_enter(),
    ensures
        carries(
            model::reach_key(v),
            model::reach_key(model::filled(model::reach_key(v).1, chunk)),
            model::reach_key(u),
            later,
            chunk,
        ),
        model::reach_key(v).0 is NeedData ==> {
            &&& model::reach_key(v).1.state == v.state
            &&& model::reach_key(v).1.sound()
            &&& model::reach_key(v).1.may_enter()
        },
{
    model::lemma_next_token_shrinks(v);
    if v.state is Start {
        law_start_object_across_reads(v, u, later, chunk);
    } else if v.state is Value {
        law_skip_value_across_reads(v, u, later, chunk);
    }
}

/// Before a key, no operation waits.
pub proof fn lemma_reach_key_ready(v: ReaderView)
    requires
        v.sound(),
        v.may_enter(),
    ensures
        model::reach_key(v).0 is Ready ==> {
            &&& model::reach_key(v).1.state is Object
            &&& model::reach_key(v).1.sound()
            &&& model::reach_key(v).1.stage is Idle
        },
{
    model::lemma_next_token_shrinks(v);
    if v.state is Value {
        lemma_skip_value_ready(v);
    }
}

/// A skipped value leaves no operation waiting.
proof fn lemma_skip_value_ready(v: ReaderView)
    requires
        v.sound(),
        v.may_skip(),
    ensures
        model::skip_value(v).0 is Ready ==> {
            &&& model::skip_value(v).1.state is Object
            &&& model::skip_value(v).1.sound()
            &&& model::skip_value(v).1.stage is Idle
        },
{
    model::lemma_next_token_shrinks(v);
    let w = model::next_token(v).1;
    if let Stage::Skip { floor } = v.stage {
        lemma_skip_rest_ready(v, floor);
    } else {
        lemma_skip_rest_ready(w.in_stage(Stage::Skip { floor: v.depth }), v.depth);
    }
}

proof fn lemma_skip_rest_ready(v: ReaderView, floor: int)
    requires
        v.sound(),
    ensures
        model::skip_rest(v, floor).0 is Ready ==> {
            &&& model::skip_rest(v, floor).1.state is Object
            &&& model::skip_rest(v, floor).1.sound()
            &&& model::skip_rest(v, floor).1.stage is Idle
        },
    decreases v.input().len(),
{
    if v.depth > floor {
        model::lemma_next_token_shrinks(v);
        if model::next_token(v).0 is Ready {
            lemma_skip_rest_ready(model::next_token(v).1, floor);
        }
    }
}

/// The next entry is the same however the data arrives.
pub proof fn law_next_object_entry_across_reads(
    v: ReaderView,
    u: ReaderView,
    later: Seq<Option<u8>>,
    chunk: Seq<u8>,
)
    requires
        ahead(v, u, later),
        v.may_enter(),
    ensures
        carries(
            model::next_object_entry(v),
            model::next_object_entry(model::filled(model::next_object_entry(v).1, chunk)),
            model::next_object_entry(u),
            later,
            chunk,
        ),
        model::next_object_entry(v).0 is NeedData ==> model::next_object_entry(v).1.may_enter(),
{
    lemma_reach_key_carries(v, u, later, chunk);
    lemma_reach_key_ready(v);
    let w = model::reach_key(v).1;
    let y = model::reach_key(u).1;
    match model::reach_key(v).0 {
        Reply::Ready(_) => {
            law_read_key_across_reads(w, y, later, chunk);
        },
        Reply::NeedData => {
            let x = model::filled(w, chunk);
            if later == arrivals(chunk) {
                lemma_entry_of_alike(x, u);
            }
        },
        _ => {},
    }
}

/// Where the same comes before the key, the same entry comes.
proof fn lemma_entry_of_alike(a: ReaderView, b: ReaderView)
    requires
        a.sound(),
        a.may_enter(),
        same_outcome(model::reach_key(a), model::reach_key(b)),
    ensures
        same_outcome(model::next_object_entry(a), model::next_object_entry(b)),
{
    lemma_reach_key_ready(a);
    let w = model::reach_key(a).1;
    let y = model::reach_key(b).1;
    if model::reach_key(a).0 is Ready {
        lemma_alike_ahead(w, y);
        law_read_key_across_reads(w, y, Seq::empty(), Seq::empty());
        lemma_alike_ahead(model::read_key(w).1, model::read_key(y).1);
    }
}

/// A key is found the same however the data arrives.
pub proof fn law_skip_to_key_across_reads(
    v: ReaderView,
    u: ReaderView,
    later: Seq<Option<u8>>,
    chunk: Seq<u8>,
    target: Seq<char>,
)
    requires
        ahead(v, u, later),
        v.may_seek(),
    ensures
        carries(
            model::skip_to_key(v, target),
            model::skip_to_key(model::filled(model::skip_to_key(v, target).1, chunk), target),
            model::skip_to_key(u, target),
            later,
            chunk,
        ),
        model::skip_to_key(v, target).0 is NeedData ==> model::skip_to_key(v, target).1.may_seek(),
{
    if let Stage::SkipToKey { floor } = v.stage {
        lemma_seek_key_carries(v, u, later, chunk, target, floor);
    } else {
        lemma_reach_key_carries(v, u, later, chunk);
        lemma_reach_key_ready(v);
        let w = model::reach_key(v).1;
        let y = model::reach_key(u).1;
        match model::reach_key(v).0 {
            Reply::Ready(_) => {
                let stage = Stage::SkipToKey { floor: w.depth };
                lemma_seek_key_carries(
                    w.in_stage(stage),
                    y.in_stage(stage),
                    later,
                    chunk,
                    target,
                    w.depth,
                );
            },
            Reply::NeedData => {
                let x = model::filled(w, chunk);
                if later == arrivals(chunk) {
                    lemma_seek_of_alike(x, u, target);
                }
            },
            _ => {},
        }
    }
}

/// Where the same comes before the key, the same key is found.
proof fn lemma_seek_of_alike(a: ReaderView, b: ReaderView, target: Seq<char>)
    requires
        a.sound(),
        a.may_enter(),
        b.may_enter(),
        same_outcome(model::reach_key(a), model::reach_key(b)),
    ensures
        same_outcome(model::skip_to_key(a, target), model::skip_to_key(b, target)),
{
    lemma_reach_key_ready(a);
    let w = model::reach_key(a).1;
    let y = model::reach_key(b).1;
    if model::reach_key(a).0 is Ready {
        let stage = Stage::SkipToKey { floor: w.depth };
        lemma_alike_ahead(w.in_stage(stage), y.in_stage(stage));
        lemma_seek_key_carries(
            w.in_stage(stage),
            y.in_stage(stage),
            Seq::empty(),
            Seq::empty(),
            target,
            w.depth,
        );
        lemma_alike_ahead(
            model::seek_key(w.in_stage(stage), target, w.depth).1,
            model::seek_key(y.in_stage(stage), target, w.depth).1,
        );
    }
}

/// What has been gathered is parsed to the same, or refused for the same.
proof fn lemma_parse_gathered(
    v: ReaderView,
    u: ReaderView,
    later: Seq<Option<u8>>,
    from: int,
    other: int,
)
    requires
        ahead(v, u, later),
        v.stage matches Stage::Deserialize { start, .. } && start == from,
        u.stage matches Stage::Deserialize { start, .. } && start == other,
        v.seen.len() == 0,
        u.seen.len() == 0,
    ensures
        unaffected(model::parse_gathered(v, from), model::parse_gathered(u, other), later),
        model::parse_gathered(v, from).0 !is NeedData,
        unaffected(model::refuse_gathered(v, from), model::refuse_gathered(u, other), later),
        model::refuse_gathered(v, from).0 !is NeedData,
{
    model::lemma_holds_nothing(v);
    model::lemma_holds_nothing(u);
}

/// The rest of an object that is gathered.
proof fn lemma_gather_carries(
    v: ReaderView,
    u: ReaderView,
    later: Seq<Option<u8>>,
    chunk: Seq<u8>,
    floor: int,
    from: int,
    other: int,
)
    requires
        ahead(v, u, later),
        v.stage == (Stage::Deserialize { floor, start: from, opened: true }),
        u.stage == (Stage::Deserialize { floor, start: other, opened: true }),
    ensures
        carries(
            model::gather(v, floor, from),
            model::gather(model::filled(model::gather(v, floor, from).1, chunk), floor, from),
            model::gather(u, floor, other),
            later,
            chunk,
        ),
        model::gather(v, floor, from).0 is NeedData ==> {
            &&& model::gather(v, floor, from).1.stage == v.stage
            &&& model::gather(v, floor, from).1.sound()
        },
    decreases u.input().len(), later.len(),
{
    if v.depth <= floor {
        lemma_parse_gathered(v, u, later, from, other);
    } else {
        law_next_token_across_reads(v, u, later, chunk);
        model::lemma_next_token_shrinks(v);
        model::lemma_next_token_shrinks(u);
        let w = model::next_token(v).1;
        let y = model::next_token(u).1;
        match model::next_token(v).0 {
            Reply::Ready(Some(_)) => {
                lemma_gather_carries(w, y, later, chunk, floor, from, other);
            },
            Reply::Ready(None) => {
                lemma_parse_gathered(w, y, later, from, other);
            },
            Reply::NeedData => {
                if later == arrivals(chunk) {
                    let x = model::filled(w, chunk);
                    lemma_waits(v);
                    lemma_caught_up(v, u, chunk);
                    lemma_gather_carries(x, u, Seq::empty(), chunk, floor, from, other);
                    lemma_alike_ahead(
                        model::gather(x, floor, from).1,
                        model::gather(u, floor, other).1,
                    );
                }
            },
            _ => {},
        }
    }
}

/// An object that is gathered.
proof fn lemma_gather_object_carries(
    v: ReaderView,
    u: ReaderView,
    later: Seq<Option<u8>>,
    chunk: Seq<u8>,
    floor: int,
    from: int,
    other: int,
)
    requires
        ahead(v, u, later),
        v.stage == (Stage::Deserialize { floor, start: from, opened: false }),
        u.stage == (Stage::Deserialize { floor, start: other, opened: false }),
    ensures
        carries(
            model::gather_object(v, floor, from),
            model::deserialize_object(
                model::filled(model::gather_object(v, floor, from).1, chunk),
            ),
            model::gather_object(u, floor, other),
            later,
            chunk,
        ),
        model::gather_object(v, floor, from).0 is NeedData ==> model::gather_object(
            v,
            floor,
            from,
        ).1.stage is Deserialize,
    decreases later.len(),
{
    law_start_object_across_reads(v, u, later, chunk);
    model::lemma_next_token_shrinks(v);
    model::lemma_next_token_shrinks(u);
    let w = model::start_object(v).1;
    let y = model::start_object(u).1;
    match model::start_object(v).0 {
        Reply::Ready(_) => {
            let mine = w.in_stage(Stage::Deserialize { floor, start: from, opened: true });
            let yours = y.in_stage(Stage::Deserialize { floor, start: other, opened: true });
            lemma_gather_carries(mine, yours, later, chunk, floor, from, other);
        },
        Reply::NeedData => {
            if later == arrivals(chunk) {
                let x = model::filled(w, chunk);
                lemma_waits(v);
                lemma_caught_up(v, u, chunk);
                lemma_gather_object_carries(x, u, Seq::empty(), chunk, floor, from, other);
                lemma_alike_ahead(
                    model::gather_object(x, floor, from).1,
                    model::gather_object(u, floor, other).1,
                );
            }
        },
        _ => {},
    }
}

/// An object is read whole the same however the data arrives: the parser is handed the
/// same bytes.
pub proof fn law_deserialize_object_across_reads(
    v: ReaderView,
    u: ReaderView,
    later: Seq<Option<u8>>,
    chunk: Seq<u8>,
)
    requires
        ahead(v, u, later),
        v.may_deserialize(),
        u.may_deserialize(),
    ensures
        carries(
            model::deserialize_object(v),
            model::deserialize_object(model::filled(model::deserialize_object(v).1, chunk)),
            model::deserialize_object(u),
            later,
            chunk,
        ),
        model::deserialize_object(v).0 is NeedData ==> model::deserialize_object(
            v,
        ).1.may_deserialize(),
{
    match (v.stage, u.stage) {
        (
            Stage::Deserialize { floor, start: from, opened },
            Stage::Deserialize { start: other, .. },
        ) => {
            if opened {
                lemma_gather_carries(v, u, later, chunk, floor, from, other);
            } else {
                lemma_gather_object_carries(v, u, later, chunk, floor, from, other);
            }
        },
        _ => {
            let mine = model::begin_gather(v);
            let yours = model::begin_gather(u);
            model::lemma_holds_nothing(mine);
            model::lemma_holds_nothing(yours);
            assert(gathered(mine) =~= gathered(yours));
            lemma_gather_object_carries(
                mine,
                yours,
                later,
                chunk,
                v.depth,
                v.position,
                u.position,
            );
        },
    }
}

/// Events without an end of the stream are their bytes.
proof fn lemma_events_of_bytes(events: Seq<Option<u8>>)
    requires
        forall|k: int| 0 <= k < events.len() ==> (#[trigger] events[k]) is Some,
    ensures
        model::events_of(model::bytes_of(events)) == events,
    decreases events.len(),
{
    if events.len() > 0 {
        lemma_events_of_bytes(events.drop_last());
        let front = model::bytes_of(events.drop_last());
        assert(events[events.len() - 1] is Some);
        assert(model::bytes_of(events) == front.push(events.last()->0));
        assert(model::events_of(model::bytes_of(events)) =~= model::events_of(front).push(
            events.last(),
        ));
        assert(model::events_of(model::bytes_of(events)) =~= events);
    } else {
        assert(model::events_of(model::bytes_of(events)) =~= events);
    }
}

/// What stands in the buffer from where a look began is the bytes of the input.
pub proof fn lemma_looked_at(v: ReaderView)
    requires
        valid(v),
        v.stage is Peek,
    ensures
        v.stage matches Stage::Peek { at, .. } && 0 <= at <= v.position && v.buffer.skip(at)
            == model::bytes_of(v.input()),
{
    let unread = v.buffer.skip(v.position);
    model::lemma_bytes_of_append(v.seen, unread);
    assert(v.buffer.skip(v.position - v.lag()) =~= model::bytes_of(v.seen) + unread);
    if v.ended {
        assert(v.input().drop_last() =~= v.seen + model::events_of(unread));
    } else {
        assert(v.input() =~= v.seen + model::events_of(unread));
    }
}

/// An end of the stream that is not used up is the last of the input.
proof fn lemma_end_is_last(v: ReaderView, n: int)
    requires
        v.sound(),
        v.seen.len() <= n <= v.input().len(),
    ensures
        forall|k: int| n <= k < v.input().len() - 1 ==> (#[trigger] v.input()[k]) is Some,
        v.past(n).ended == (n < v.input().len() && v.input().last() is None),
{
}

/// After looks at the same token, one reader is as far ahead of the other as before.
proof fn lemma_end_peek_ahead(v: ReaderView, u: ReaderView, later: Seq<Option<u8>>, n: int)
    requires
        ahead(v, u, later),
        v.stage is Peek,
        v.seen.len() <= n <= v.input().len(),
        u.seen.len() <= n,
    ensures
        ahead(
            model::end_peek(v.past(n), v.stage->at, v.stage->kept),
            model::end_peek(u.past(n), u.stage->at, u.stage->kept),
            later,
        ),
{
    let w = model::end_peek(v.past(n), v.stage->at, v.stage->kept);
    let x = model::end_peek(u.past(n), u.stage->at, u.stage->kept);
    lemma_looked_at(v);
    lemma_looked_at(u);
    lemma_end_is_last(v, n);
    lemma_end_is_last(u, n);
    lemma_bytes_of_concat(v.input(), later);
    let base = model::events_of(model::bytes_of(v.input()));
    if later.len() == 0 {
        assert(u.input() =~= v.input());
        assert(x.input() =~= w.input() + later);
    } else {
        let last = v.input().len() - 1;
        assert(!w.ended) by {
            if w.ended {
                assert(u.input()[last] == v.input()[last]);
                assert(u.input()[last] is Some);
            }
        }
        assert forall|k: int| 0 <= k < later.len() - 1 implies (#[trigger] later[k]) is Some by {
            assert(u.input()[v.input().len() + k] == later[k]);
        }
        assert(u.input().last() == later.last());
        if later.last() is None {
            let front = later.drop_last();
            lemma_events_of_bytes(front);
            assert(model::bytes_of(later) == model::bytes_of(front));
            assert(later =~= front.push(None));
            assert(x.input() =~= base + front + seq![None::<u8>]);
            assert(x.input() =~= w.input() + later);
        } else {
            lemma_events_of_bytes(later);
            assert(x.input() =~= base + later);
            assert(x.input() =~= w.input() + later);
        }
    }
}

/// A look sees the same token for a reader that is ahead.
proof fn lemma_peek_rest_carries(
    v: ReaderView,
    u: ReaderView,
    later: Seq<Option<u8>>,
    chunk: Seq<u8>,
)
    requires
        ahead(v, u, later),
        v.stage is Peek,
    ensures
        unaffected(
            model::peek_rest(v, v.stage->at, v.stage->kept),
            model::peek_rest(u, u.stage->at, u.stage->kept),
            later,
        ),
        model::peek_rest(v, v.stage->at, v.stage->kept).0 is NeedData ==> {
            let w = model::peek_rest(v, v.stage->at, v.stage->kept).1;
            &&& w == v.exhausted()
            &&& later == arrivals(chunk) ==> alike(model::filled(w, chunk), u)
        },
{
    reveal(model::next_token);
    lemma_next_token(v, u, later);
    lemma_found_beyond_seen(v);
    lemma_found_beyond_seen(u);
    Place::Start.lemma_stable(v.input(), later, 0, v.depth);
    match grammar::lex(v.input(), v.depth) {
        Lexed::More => {
            if later == arrivals(chunk) {
                lemma_caught_up(v, u, chunk);
            }
        },
        Lexed::End { len } => {
            lemma_end_peek_ahead(v, u, later, len);
        },
        Lexed::Token { len, .. } => {
            lemma_end_peek_ahead(v, u, later, len);
        },
        Lexed::Flaw { len, .. } => {
            lemma_end_peek_ahead(v, u, later, len);
        },
    }
}

/// A look at a token that the end of the stream has no part in changes nothing of the
/// input.
pub proof fn lemma_peek_restores(v: ReaderView, n: int)
    requires
        valid(v),
        v.stage is Peek,
        v.seen.len() <= n <= v.input().len(),
        forall|k: int| 0 <= k < n ==> (#[trigger] v.input()[k]) is Some,
    ensures
        model::end_peek(v.past(n), v.stage->at, v.stage->kept).input() == v.input(),
{
    let w = model::end_peek(v.past(n), v.stage->at, v.stage->kept);
    lemma_looked_at(v);
    lemma_end_is_last(v, n);
    if w.ended {
        let front = v.input().drop_last();
        assert forall|k: int| 0 <= k < front.len() implies (#[trigger] front[k]) is Some by {
            assert(front[k] == v.input()[k]);
        }
        lemma_events_of_bytes(front);
        assert(v.input() =~= front.push(None));
        assert(model::bytes_of(v.input()) == model::bytes_of(front));
        assert(w.input() =~= front + seq![None::<u8>]);
        assert(w.input() =~= v.input());
    } else {
        assert forall|k: int|
            0 <= k < v.input().len() implies (#[trigger] v.input()[k]) is Some by {
            if k == v.input().len() - 1 && k >= n {
                assert(v.input().last() == v.input()[k]);
            }
        }
        lemma_events_of_bytes(v.input());
        assert(w.input() =~= v.input());
    }
}

/// A look sees the same token however the data arrives.
pub proof fn law_peek_token_across_reads(
    v: ReaderView,
    u: ReaderView,
    later: Seq<Option<u8>>,
    chunk: Seq<u8>,
)
    requires
        ahead(v, u, later),
        v.may_peek(),
        u.may_peek(),
    ensures
        carries(
            model::peek_token(v),
            model::peek_token(model::filled(model::peek_token(v).1, chunk)),
            model::peek_token(u),
            later,
            chunk,
        ),
        model::peek_token(v).0 is NeedData ==> model::peek_token(v).1.may_peek(),
{
    let mine = if v.stage is Peek {
        v
    } else {
        model::begin_peek(v, false)
    };
    let yours = if v.stage is Peek {
        u
    } else {
        model::begin_peek(u, false)
    };
    if v.stage is Idle {
        model::lemma_holds_nothing(mine);
        model::lemma_holds_nothing(yours);
    }
    lemma_peek_rest_carries(mine, yours, later, chunk);
    let w = model::peek_token(v).1;
    if model::peek_token(v).0 is NeedData && later == arrivals(chunk) {
        let x = model::filled(w, chunk);
        lemma_alike_ahead(x, yours);
        lemma_peek_rest_carries(x, yours, Seq::empty(), chunk);
        lemma_alike_ahead(model::peek_token(x).1, model::peek_token(yours).1);
    }
}

/// The look for an array's first item.
proof fn lemma_first_item_carries(
    v: ReaderView,
    u: ReaderView,
    later: Seq<Option<u8>>,
    chunk: Seq<u8>,
)
    requires
        ahead(v, u, later),
        v.stage matches Stage::Peek { item, .. } && item,
    ensures
        carries(
            model::start_array_item(v),
            model::start_array_item(model::filled(model::start_array_item(v).1, chunk)),
            model::start_array_item(u),
            later,
            chunk,
        ),
        model::start_array_item(v).0 is NeedData ==> model::start_array_item(v).1.may_start_item(),
    decreases later.len(),
{
    lemma_peek_rest_carries(v, u, later, chunk);
    let (reply, w) = model::peek_rest(v, v.stage->at, v.stage->kept);
    let y = model::peek_rest(u, u.stage->at, u.stage->kept).1;
    match reply {
        Reply::Ready(Some(TokenView::EndArray)) => {
            lemma_end_seen_is_taken(v);
            lemma_next_token(w, y, later);
        },
        Reply::NeedData => {
            if later == arrivals(chunk) {
                let x = model::filled(w, chunk);
                lemma_alike_ahead(x, u);
                lemma_first_item_carries(x, u, Seq::empty(), chunk);
                lemma_alike_ahead(model::start_array_item(x).1, model::start_array_item(u).1);
            }
        },
        _ => {},
    }
}

/// An array's end that was looked at is what comes next.
pub proof fn lemma_end_seen_is_taken(v: ReaderView)
    requires
        valid(v),
        v.stage is Peek,
    ensures
        ({
            let (reply, w) = model::peek_rest(v, v.stage->at, v.stage->kept);
            reply == Reply::Ready(Some(TokenView::EndArray)) ==> model::next_token(w).0 == reply
        }),
{
    reveal(model::next_token);
    lemma_found_beyond_seen(v);
    Place::Start.lemma_punctuation(v.input(), 0, v.depth);
    if let Lexed::Token { token, len } = grammar::lex(v.input(), v.depth) {
        if token is EndArray {
            lemma_peek_restores(v, len);
        }
    }
}

/// The next item of an array is the same however the data arrives.
pub proof fn law_start_array_item_across_reads(
    v: ReaderView,
    u: ReaderView,
    later: Seq<Option<u8>>,
    chunk: Seq<u8>,
)
    requires
        ahead(v, u, later),
        v.may_start_item(),
    ensures
        carries(
            model::start_array_item(v),
            model::start_array_item(model::filled(model::start_array_item(v).1, chunk)),
            model::start_array_item(u),
            later,
            chunk,
        ),
        model::start_array_item(v).0 is NeedData ==> model::start_array_item(v).1.may_start_item(),
    decreases later.len(),
{
    if v.stage is Peek {
        lemma_first_item_carries(v, u, later, chunk);
    } else {
        law_next_token_across_reads(v, u, later, chunk);
        model::lemma_next_token_shrinks(v);
        model::lemma_next_token_shrinks(u);
        let w = model::next_token(v).1;
        let y = model::next_token(u).1;
        match model::next_token(v).0 {
            Reply::Ready(Some(TokenView::StartArray)) => {
                let mine = model::begin_peek(w, true);
                let yours = model::begin_peek(y, true);
                model::lemma_holds_nothing(mine);
                model::lemma_holds_nothing(yours);
                lemma_first_item_carries(mine, yours, later, chunk);
            },
            Reply::NeedData => {
                if later == arrivals(chunk) {
                    let x = model::filled(w, chunk);
                    lemma_waits(v);
                    lemma_caught_up(v, u, chunk);
                    law_start_array_item_across_reads(x, u, Seq::empty(), chunk);
                    lemma_alike_ahead(model::start_array_item(x).1, model::start_array_item(u).1);
                }
            },
            _ => {},
        }
    }
}

/// A read that brings two parts at once puts the reader ahead of one that has had the
/// first part only: together with the laws above, a read may be split anywhere.
pub proof fn law_read_may_be_split(v: ReaderView, first: Seq<u8>, second: Seq<u8>)
    requires
        valid(v),
        v.position == v.buffer.len(),
        first.len() > 0,
        second.len() > 0,
    ensures
        ahead(model::filled(v, first), model::filled(v, first + second), arrivals(second)),
{
    let a = model::filled(v, first);
    let b = model::filled(v, first + second);
    model::lemma_filled_coherent(v, first);
    model::lemma_filled_coherent(v, first + second);
    assert(b.input() =~= a.input() + arrivals(second));
    assert(gathered(a) =~= gathered(b));
}

/// The reader has nothing left that it has not looked at.
pub open spec fn waiting(v: ReaderView) -> bool {
    v.position == v.buffer.len() && !v.ended
}

proof fn lemma_read_key_waits(v: ReaderView)
    requires
        v.sound(),
    ensures
        model::read_key(v).0 is NeedData ==> waiting(model::read_key(v).1),
    decreases v.input().len(),
{
    lemma_waits(v);
    model::lemma_next_token_shrinks(v);
    if let Reply::Ready(Some(_)) = model::next_token(v).0 {
        lemma_read_key_waits(model::next_token(v).1);
    }
}

proof fn lemma_skip_rest_waits(v: ReaderView, floor: int)
    requires
        v.sound(),
    ensures
        model::skip_rest(v, floor).0 is NeedData ==> waiting(model::skip_rest(v, floor).1),
    decreases v.input().len(),
{
    lemma_waits(v);
    model::lemma_next_token_shrinks(v);
    if let Reply::Ready(Some(_)) = model::next_token(v).0 {
        lemma_skip_rest_waits(model::next_token(v).1, floor);
    }
}

proof fn lemma_seek_key_waits(v: ReaderView, target: Seq<char>, floor: int)
    requires
        v.sound(),
    ensures
        model::seek_key(v, target, floor).0 is NeedData ==> waiting(
            model::seek_key(v, target, floor).1,
        ),
    decreases v.input().len(),
{
    lemma_waits(v);
    model::lemma_next_token_shrinks(v);
    if let Reply::Ready(Some(_)) = model::next_token(v).0 {
        lemma_seek_key_waits(model::next_token(v).1, target, floor);
    }
}

proof fn lemma_gather_waits(v: ReaderView, floor: int, start: int)
    requires
        v.sound(),
    ensures
        model::gather(v, floor, start).0 is NeedData ==> waiting(model::gather(v, floor, start).1),
    decreases v.input().len(),
{
    lemma_waits(v);
    model::lemma_next_token_shrinks(v);
    if let Reply::Ready(Some(_)) = model::next_token(v).0 {
        lemma_gather_waits(model::next_token(v).1, floor, start);
    }
}

/// An operation that waits for data has looked at all there is, so that the next read
/// can always be taken in.
pub proof fn law_waiting_reader_can_be_filled(v: ReaderView, target: Seq<char>)
    requires
        valid(v),
    ensures
        model::next_token(v).0 is NeedData ==> waiting(model::next_token(v).1),
        model::start_object(v).0 is NeedData ==> waiting(model::start_object(v).1),
        model::read_string(v).0 is NeedData ==> waiting(model::read_string(v).1),
        model::read_nullable_string(v).0 is NeedData ==> waiting(model::read_nullable_string(v).1),
        model::read_number_text(v).0 is NeedData ==> waiting(model::read_number_text(v).1),
        model::read_boolean(v).0 is NeedData ==> waiting(model::read_boolean(v).1),
        model::read_key(v).0 is NeedData ==> waiting(model::read_key(v).1),
        model::skip_value(v).0 is NeedData ==> waiting(model::skip_value(v).1),
        model::skip_object(v).0 is NeedData ==> waiting(model::skip_object(v).1),
        v.may_enter() && model::next_object_entry(v).0 is NeedData ==> waiting(
            model::next_object_entry(v).1,
        ),
        v.may_seek() && model::skip_to_key(v, target).0 is NeedData ==> waiting(
            model::skip_to_key(v, target).1,
        ),
        model::peek_token(v).0 is NeedData ==> waiting(model::peek_token(v).1),
        model::start_array_item(v).0 is NeedData ==> waiting(model::start_array_item(v).1),
        model::deserialize_object(v).0 is NeedData ==> waiting(model::deserialize_object(v).1),
        waiting(v) ==> model::fillable(v),
{
    lemma_waits(v);
    model::lemma_next_token_shrinks(v);
    lemma_read_key_waits(v);
    lemma_skip_value_waits(v);
    if v.may_enter() {
        lemma_reach_key_ready(v);
        let w = model::reach_key(v).1;
        if model::reach_key(v).0 is Ready {
            lemma_read_key_waits(w);
            lemma_seek_key_waits(
                w.in_stage(Stage::SkipToKey { floor: w.depth }),
                target,
                w.depth,
            );
        }
    }
    if let Stage::SkipToKey { floor } = v.stage {
        lemma_seek_key_waits(v, target, floor);
    }
    lemma_looks_wait(v);
    lemma_deserialize_waits(v);
}

proof fn lemma_skip_value_waits(v: ReaderView)
    requires
        v.sound(),
    ensures
        model::skip_value(v).0 is NeedData ==> waiting(model::skip_value(v).1),
        model::skip_object(v).0 is NeedData ==> waiting(model::skip_object(v).1),
{
    lemma_waits(v);
    model::lemma_next_token_shrinks(v);
    if let Stage::Skip { floor } = v.stage {
        lemma_skip_rest_waits(v, floor);
    } else {
        let stage = Stage::Skip { floor: v.depth };
        lemma_skip_rest_waits(model::next_token(v).1.in_stage(stage), v.depth);
        lemma_skip_rest_waits(model::start_object(v).1.in_stage(stage), v.depth);
    }
}

proof fn lemma_looks_wait(v: ReaderView)
    requires
        v.sound(),
    ensures
        model::peek_token(v).0 is NeedData ==> waiting(model::peek_token(v).1),
        model::start_array_item(v).0 is NeedData ==> waiting(model::start_array_item(v).1),
{
    lemma_waits(v);
    lemma_waits(model::begin_peek(v, false));
    lemma_waits(model::begin_peek(model::next_token(v).1, true));
}

proof fn lemma_deserialize_waits(v: ReaderView)
    requires
        v.sound(),
    ensures
        model::deserialize_object(v).0 is NeedData ==> waiting(model::deserialize_object(v).1),
{
    match v.stage {
        Stage::Deserialize { floor, start, opened } => {
            if opened {
                lemma_gather_waits(v, floor, start);
            } else {
                lemma_gather_object_waits(v, floor, start);
            }
        },
        _ => {
            lemma_gather_object_waits(model::begin_gather(v), v.depth, v.position);
        },
    }
}

proof fn lemma_gather_object_waits(v: ReaderView, floor: int, start: int)
    requires
        v.sound(),
    ensures
        model::gather_object(v, floor, start).0 is NeedData ==> waiting(
            model::gather_object(v, floor, start).1,
        ),
{
    lemma_waits(v);
    model::lemma_next_token_shrinks(v);
    let w = model::start_object(v).1.in_stage(Stage::Deserialize { floor, start, opened: true });
    lemma_gather_waits(w, floor, start);
}

proof fn lemma_ends_have_no_bytes(events: Seq<Option<u8>>)
    requires
        forall|k: int| 0 <= k < events.len() ==> (#[trigger] events[k]) is None,
    ensures
        model::bytes_of(events) == Seq::<u8>::empty(),
    decreases events.len(),
{
    if events.len() > 0 {
        assert(events[events.len() - 1] is None);
        lemma_ends_have_no_bytes(events.drop_last());
    }
}

/// The last token of a stream, or the lack of one, that was looked at is what comes next
/// once the end of the stream has been reported as often again: `n` events of the look
/// were bytes, the others reports of the end.
pub proof fn law_peeked_last_token_is_next(v: ReaderView, u: ReaderView, n: int)
    requires
        valid(v),
        v.stage is Peek,
        0 <= n <= v.input().len(),
        forall|k: int| 0 <= k < n ==> (#[trigger] v.input()[k]) is Some,
        forall|k: int| n <= k < v.input().len() ==> (#[trigger] v.input()[k]) is None,
        match grammar::lex(v.input(), v.depth) {
            Lexed::End { len } => len == v.input().len(),
            Lexed::Token { len, .. } => len == v.input().len(),
            _ => false,
        },
        ahead(model::peek_token(v).1, u, v.input().skip(n)),
    ensures
        model::next_token(u).0 == model::peek_token(v).0,
{
    reveal(model::next_token);
    let w = model::peek_token(v).1;
    let bytes = v.input().take(n);
    let ends = v.input().skip(n);
    assert(v.input() =~= bytes + ends);
    lemma_looked_at(v);
    lemma_found_beyond_seen(v);
    lemma_end_is_last(v, v.input().len() as int);
    lemma_bytes_of_concat(bytes, ends);
    assert forall|k: int| 0 <= k < ends.len() implies (#[trigger] ends[k]) is None by {
        assert(ends[k] == v.input()[n + k]);
    }
    lemma_ends_have_no_bytes(ends);
    assert(model::bytes_of(v.input()) =~= model::bytes_of(bytes));
    assert forall|k: int| 0 <= k < bytes.len() implies (#[trigger] bytes[k]) is Some by {
        assert(bytes[k] == v.input()[k]);
    }
    lemma_events_of_bytes(bytes);
    assert(w.input() =~= bytes);
    assert(u.input() == v.input());
}

} // verus!
