//! Laws on whole streams: what is read depends on the bytes that are still to come and on
//! nothing else, however they are cut into reads.
//!
//! The source gives its reads one after the other, none of them empty, and then reports the
//! end as often as it is asked.
use vstd::prelude::*;

use crate::chunk_laws;
use crate::error::ErrorView;
use crate::grammar;
use crate::grammar::{FlawView, Lexed};
use crate::model;
use crate::model::{ReaderView, Reply, Stage};
use crate::place::{Place, Turn};
use crate::string_laws;
use crate::token::TokenView;
use crate::token_laws;

verus! {

/// No read is empty.
pub open spec fn none_empty(reads: Seq<Seq<u8>>) -> bool {
    forall|k: int| 0 <= k < reads.len() ==> (#[trigger] reads[k]).len() > 0
}

/// The bytes still to come: those in the buffer that are not used up, and those of the reads.
pub open spec fn unread(v: ReaderView, reads: Seq<Seq<u8>>) -> Seq<u8> {
    v.buffer.skip(v.position) + string_laws::concatenated(reads)
}

/// Reports of the end of the stream.
pub open spec fn ends(n: nat) -> Seq<Option<u8>> {
    Seq::new(n, |i: int| None::<u8>)
}

/// The next token, asked for until it is there: as long as the reader waits, it gets the
/// next read, and after the last one a report of the end, `left` of them at most.
pub open spec fn token_over(v: ReaderView, reads: Seq<Seq<u8>>, left: nat) -> (
    Reply<Option<TokenView>>,
    ReaderView,
    Seq<Seq<u8>>,
)
    decreases reads.len() + left,
{
    let (reply, w) = model::next_token(v);
    if reply is NeedData && reads.len() > 0 {
        token_over(model::filled(w, reads[0]), reads.drop_first(), left)
    } else if reply is NeedData && left > 0 {
        token_over(model::filled(w, Seq::empty()), reads, (left - 1) as nat)
    } else {
        (reply, w, reads)
    }
}

/// A look at the next token, asked for until it is done.
pub open spec fn peek_over(v: ReaderView, reads: Seq<Seq<u8>>, left: nat) -> (
    Reply<Option<TokenView>>,
    ReaderView,
    Seq<Seq<u8>>,
)
    decreases reads.len() + left,
{
    let (reply, w) = model::peek_token(v);
    if reply is NeedData && reads.len() > 0 {
        peek_over(model::filled(w, reads[0]), reads.drop_first(), left)
    } else if reply is NeedData && left > 0 {
        peek_over(model::filled(w, Seq::empty()), reads, (left - 1) as nat)
    } else {
        (reply, w, reads)
    }
}

/// How often the end of the stream has to be reported at most for one token.
pub open spec fn enough() -> nat {
    3
}

/// What the bytes amount to, with nothing after them.
pub open spec fn lex_all(bytes: Seq<u8>, depth: int) -> Lexed {
    grammar::lex(model::events_of(bytes) + ends(enough()), depth)
}

/// The reply for what was found, but for the position in an error.
pub open spec fn reply_for(lexed: Lexed) -> Reply<Option<TokenView>> {
    match lexed {
        Lexed::More => Reply::NeedData,
        Lexed::End { .. } => Reply::Ready(None),
        Lexed::Token { token, .. } => Reply::Ready(Some(token)),
        Lexed::Flaw { flaw, .. } => Reply::Failed(model::error_at(flaw, 0)),
    }
}

/// How many events belong to what was found.
pub open spec fn len_of(lexed: Lexed) -> int {
    match lexed {
        Lexed::More => 0,
        Lexed::End { len } => len,
        Lexed::Token { len, .. } => len,
        Lexed::Flaw { len, .. } => len,
    }
}

/// The depth after what was found.
pub open spec fn depth_for(lexed: Lexed, depth: int) -> int {
    match lexed {
        Lexed::Token { token, .. } => model::depth_after(depth, token),
        _ => depth,
    }
}

/// What is left of the bytes after what was found at their front.
pub open spec fn rest_of(bytes: Seq<u8>, lexed: Lexed) -> Seq<u8> {
    if len_of(lexed) <= bytes.len() {
        bytes.skip(len_of(lexed))
    } else {
        Seq::empty()
    }
}

/// All that comes.
spec fn coming(v: ReaderView, reads: Seq<Seq<u8>>, left: nat) -> Seq<Option<u8>> {
    v.input() + (model::events_of(string_laws::concatenated(reads)) + ends(left))
}

/// A read moves bytes from those that come to the input.
proof fn lemma_read_moves(v: ReaderView, w: ReaderView, reads: Seq<Seq<u8>>, left: nat)
    requires
        reads.len() > 0,
        reads[0].len() > 0,
        w.input() == v.input() + chunk_laws::arrivals(reads[0]),
    ensures
        coming(w, reads.drop_first(), left) == coming(v, reads, left),
{
    assert(coming(w, reads.drop_first(), left) =~= coming(v, reads, left));
}

/// So does a report of the end.
proof fn lemma_end_moves(v: ReaderView, w: ReaderView, reads: Seq<Seq<u8>>, left: nat)
    requires
        reads.len() == 0,
        left > 0,
        w.input() == v.input() + chunk_laws::arrivals(Seq::empty()),
    ensures
        coming(w, reads, (left - 1) as nat) == coming(v, reads, left),
{
    assert(coming(w, reads, (left - 1) as nat) =~= coming(v, reads, left));
}

/// A report of the end is there only where all bytes are used up.
spec fn end_is_awaited(v: ReaderView) -> bool {
    v.ended ==> v.position == v.buffer.len()
}

/// Such a report is used up by the token that waited for it.
proof fn lemma_end_is_used(v: ReaderView)
    requires
        v.sound(),
        end_is_awaited(v),
        grammar::lex(v.input(), v.depth) !is More,
    ensures
        !v.past(len_of(grammar::lex(v.input(), v.depth))).ended,
{
    if v.ended {
        assert(v.input() =~= v.seen.push(None));
        Place::Start.lemma_end_used(v.seen, 0, v.depth);
    }
}

proof fn lemma_token_over(v: ReaderView, reads: Seq<Seq<u8>>, left: nat) -> (spare: nat)
    requires
        chunk_laws::valid(v),
        v.stage is Idle,
        none_empty(reads),
        end_is_awaited(v),
        grammar::lex(coming(v, reads, left), v.depth) !is More,
    ensures
        ({
            let lexed = grammar::lex(coming(v, reads, left), v.depth);
            let (reply, x, rest) = token_over(v, reads, left);
            &&& chunk_laws::same_reply(reply, reply_for(lexed))
            &&& chunk_laws::valid(x)
            &&& x.at_rest()
            &&& !x.ended
            &&& x.state == v.state
            &&& x.depth == depth_for(lexed, v.depth)
            &&& none_empty(rest)
            &&& coming(x, rest, spare) == coming(v, reads, left).skip(len_of(lexed))
            &&& spare <= left
        }),
    decreases reads.len() + left,
{
    let all = coming(v, reads, left);
    let later = model::events_of(string_laws::concatenated(reads)) + ends(left);
    let w = v.exhausted();
    chunk_laws::lemma_waits(v);
    if grammar::lex(v.input(), v.depth) is More {
        if reads.len() > 0 {
            chunk_laws::lemma_wait(v, reads[0]);
            let x = model::filled(w, reads[0]);
            lemma_read_moves(v, x, reads, left);
            assert forall|k: int| 0 <= k < reads.drop_first().len() implies (
            #[trigger] reads.drop_first()[k]).len() > 0 by {
                assert(reads.drop_first()[k] == reads[k + 1]);
            }
            lemma_token_over(x, reads.drop_first(), left)
        } else {
            if left == 0 {
                assert(all =~= v.input());
            }
            chunk_laws::lemma_wait(v, Seq::empty());
            let x = model::filled(w, Seq::empty());
            lemma_end_moves(v, x, reads, left);
            lemma_token_over(x, reads, (left - 1) as nat)
        }
    } else {
        reveal(model::next_token);
        Place::Start.lemma_stable(v.input(), later, 0, v.depth);
        chunk_laws::lemma_found_beyond_seen(v);
        let len = len_of(grammar::lex(v.input(), v.depth));
        chunk_laws::lemma_past(v, len);
        lemma_end_is_used(v);
        assert(v.input().skip(len) + later =~= all.skip(len));
        left
    }
}

/// Bytes and ends of the stream are told apart.
proof fn lemma_bytes_and_ends(p: Seq<u8>, m: nat, q: Seq<u8>, n: nat)
    requires
        model::events_of(p) + ends(m) == model::events_of(q) + ends(n),
    ensures
        p == q,
{
    let s = model::events_of(p) + ends(m);
    let t = model::events_of(q) + ends(n);
    assert(s.len() == p.len() + m);
    assert(t.len() == q.len() + n);
    if p.len() < q.len() {
        assert(s[p.len() as int] is None);
        assert(t[p.len() as int] == Some(q[p.len() as int]));
    }
    if q.len() < p.len() {
        assert(t[q.len() as int] is None);
        assert(s[q.len() as int] == Some(p[q.len() as int]));
    }
    assert forall|k: int| 0 <= k < p.len() implies p[k] == q[k] by {
        assert(s[k] == Some(p[k]));
        assert(t[k] == Some(q[k]));
    }
    assert(p =~= q);
}

/// At rest, all that comes is the unread bytes.
proof fn lemma_coming_at_rest(v: ReaderView, reads: Seq<Seq<u8>>, left: nat)
    requires
        v.at_rest(),
        !v.ended,
    ensures
        coming(v, reads, left) == model::events_of(unread(v, reads)) + ends(left),
{
    assert(coming(v, reads, left) =~= model::events_of(unread(v, reads)) + ends(left));
}

/// The bytes that a token leaves.
proof fn lemma_rest_of(bytes: Seq<u8>, lexed: Lexed, rest: Seq<u8>, spare: nat)
    requires
        0 <= len_of(lexed) <= bytes.len() + enough(),
        model::events_of(rest) + ends(spare) == (model::events_of(bytes) + ends(enough())).skip(
            len_of(lexed),
        ),
    ensures
        rest == rest_of(bytes, lexed),
{
    let len = len_of(lexed);
    let all = (model::events_of(bytes) + ends(enough())).skip(len);
    if len <= bytes.len() {
        assert(all =~= model::events_of(bytes.skip(len)) + ends(enough()));
        lemma_bytes_and_ends(rest, spare, bytes.skip(len), enough());
    } else {
        let n = (bytes.len() + enough() - len) as nat;
        assert(all =~= model::events_of(Seq::<u8>::empty()) + ends(n));
        lemma_bytes_and_ends(rest, spare, Seq::empty(), n);
    }
}

/// Any bytes, with the end of the stream after them, amount to something.
pub proof fn lemma_lex_all(bytes: Seq<u8>, depth: int)
    ensures
        lex_all(bytes, depth) !is More,
        0 <= len_of(lex_all(bytes, depth)) <= bytes.len() + enough(),
        lex_all(bytes, depth) is Token ==> 0 < len_of(lex_all(bytes, depth)) && bytes.len() > 0,
{
    let s = model::events_of(bytes) + ends(enough());
    Place::Start.lemma_ends_settle(s, bytes.len() as int, 0, depth);
    Place::Start.lemma_bounds(s, 0, depth);
    if bytes.len() == 0 {
        assert(s[0] is None);
        Place::Start.lemma_turn(s, 0, depth);
    }
}

/// The next token, and what is left after it, depend on the bytes still to come alone,
/// however they are cut into reads.
pub proof fn law_token_depends_on_bytes(v: ReaderView, reads: Seq<Seq<u8>>)
    requires
        chunk_laws::valid(v),
        v.at_rest(),
        !v.ended,
        none_empty(reads),
    ensures
        ({
            let lexed = lex_all(unread(v, reads), v.depth);
            let (reply, x, rest) = token_over(v, reads, enough());
            &&& chunk_laws::same_reply(reply, reply_for(lexed))
            &&& unread(x, rest) == rest_of(unread(v, reads), lexed)
            &&& x.depth == depth_for(lexed, v.depth)
            &&& x.state == v.state
            &&& chunk_laws::valid(x)
            &&& x.at_rest()
            &&& !x.ended
            &&& none_empty(rest)
            &&& reply is Ready && reply->Ready_0 is Some ==> unread(x, rest).len() < unread(
                v,
                reads,
            ).len()
        }),
{
    let bytes = unread(v, reads);
    lemma_coming_at_rest(v, reads, enough());
    lemma_lex_all(bytes, v.depth);
    let spare = lemma_token_over(v, reads, enough());
    let (reply, x, rest) = token_over(v, reads, enough());
    lemma_coming_at_rest(x, rest, spare);
    lemma_rest_of(bytes, lex_all(bytes, v.depth), unread(x, rest), spare);
}

/// All tokens of the bytes, up to their end or the first flaw.
pub open spec fn tokens_in(bytes: Seq<u8>, depth: int) -> (Seq<TokenView>, Option<FlawView>)
    decreases bytes.len(),
{
    match lex_all(bytes, depth) {
        Lexed::Token { token, .. } => {
            let lexed = lex_all(bytes, depth);
            proof {
                lemma_lex_all(bytes, depth);
            }
            let (tokens, flaw) = tokens_in(rest_of(bytes, lexed), depth_for(lexed, depth));
            (seq![token] + tokens, flaw)
        },
        Lexed::Flaw { flaw, .. } => (Seq::empty(), Some(flaw)),
        _ => (Seq::empty(), None),
    }
}

/// All tokens that a reader gives over its reads when the next one is asked for again and
/// again, up to the end or the first error.
pub open spec fn tokens_over(v: ReaderView, reads: Seq<Seq<u8>>) -> (
    Seq<TokenView>,
    Option<ErrorView>,
)
    decreases unread(v, reads).len(),
    when chunk_laws::valid(v) && v.at_rest() && !v.ended && none_empty(reads)
{
    proof {
        law_token_depends_on_bytes(v, reads);
    }
    match token_over(v, reads, enough()) {
        (Reply::Ready(Some(token)), x, rest) => {
            let (tokens, error) = tokens_over(x, rest);
            (seq![token] + tokens, error)
        },
        (Reply::Failed(error), x, rest) => (Seq::empty(), Some(error)),
        _ => (Seq::empty(), None),
    }
}

/// The same ending, but for the position in an error.
pub open spec fn same_ending(a: Option<ErrorView>, b: Option<ErrorView>) -> bool {
    match (a, b) {
        (Some(e), Some(f)) => chunk_laws::same_error(e, f),
        _ => a == b,
    }
}

/// The tokens that a reader gives are those in the bytes still to come, however they are
/// cut into reads.
pub proof fn law_tokens_are_those_in_the_bytes(v: ReaderView, reads: Seq<Seq<u8>>)
    requires
        chunk_laws::valid(v),
        v.at_rest(),
        !v.ended,
        none_empty(reads),
    ensures
        ({
            let (tokens, flaw) = tokens_in(unread(v, reads), v.depth);
            let (given, error) = tokens_over(v, reads);
            &&& given == tokens
            &&& same_ending(
                error,
                match flaw {
                    Some(f) => Some(model::error_at(f, 0)),
                    None => None,
                },
            )
        }),
    decreases unread(v, reads).len(),
{
    law_token_depends_on_bytes(v, reads);
    lemma_lex_all(unread(v, reads), v.depth);
    if let (Reply::Ready(Some(token)), x, rest) = token_over(v, reads, enough()) {
        law_tokens_are_those_in_the_bytes(x, rest);
    }
}

/// Two ways of cutting the same stream into reads give the same tokens, and the same error
/// at the end if there is one.
pub proof fn law_cutting_makes_no_difference(one: Seq<Seq<u8>>, other: Seq<Seq<u8>>)
    requires
        none_empty(one),
        none_empty(other),
        string_laws::concatenated(one) == string_laws::concatenated(other),
    ensures
        tokens_over(model::fresh(), one).0 == tokens_over(model::fresh(), other).0,
        same_ending(
            tokens_over(model::fresh(), one).1,
            tokens_over(model::fresh(), other).1,
        ),
{
    lemma_fresh();
    law_tokens_are_those_in_the_bytes(model::fresh(), one);
    law_tokens_are_those_in_the_bytes(model::fresh(), other);
    assert(unread(model::fresh(), one) == unread(model::fresh(), other));
}

proof fn lemma_fresh()
    ensures
        chunk_laws::valid(model::fresh()),
        model::fresh().at_rest(),
        !model::fresh().ended,
{
}

/// Only whitespace.
pub open spec fn blank(bytes: Seq<u8>) -> bool {
    forall|k: int| 0 <= k < bytes.len() ==> token_laws::white(#[trigger] bytes[k])
}

proof fn lemma_blank_is_end(bytes: Seq<u8>, i: int, depth: int)
    requires
        0 <= i <= bytes.len(),
    ensures
        ({
            let s = model::events_of(bytes) + ends(enough());
            let lexed = grammar::token_start(s, i, depth);
            &&& (lexed is End) == blank(bytes.skip(i))
            &&& lexed is End ==> len_of(lexed) == bytes.len() + 1
        }),
    decreases bytes.len() - i,
{
    let s = model::events_of(bytes) + ends(enough());
    let rest = bytes.skip(i);
    Place::Start.lemma_turn(s, i, depth);
    if i == bytes.len() {
        assert(s[i] is None);
    } else {
        assert(s[i] == Some(bytes[i]));
        assert(rest[0] == bytes[i]);
        if token_laws::white(bytes[i]) {
            lemma_blank_is_end(bytes, i + 1, depth);
            let after = bytes.skip(i + 1);
            assert(after =~= rest.drop_first());
            if blank(after) {
                assert forall|k: int| 0 <= k < rest.len() implies token_laws::white(
                    #[trigger] rest[k],
                ) by {
                    if k > 0 {
                        assert(rest[k] == after[k - 1]);
                    }
                }
            }
            if blank(rest) {
                assert forall|k: int| 0 <= k < after.len() implies token_laws::white(
                    #[trigger] after[k],
                ) by {
                    assert(after[k] == rest[k + 1]);
                }
            }
        } else if let Turn::On { place, used } = Place::Start.turn(s[i], depth) {
            place.lemma_no_end(s, i + grammar::events(used), depth);
        }
    }
}

/// There is no further token just when only whitespace is still to come; nothing is left
/// after that, and asking again tells the same.
pub proof fn law_end_comes_after_whitespace(v: ReaderView, reads: Seq<Seq<u8>>)
    requires
        chunk_laws::valid(v),
        v.at_rest(),
        !v.ended,
        none_empty(reads),
    ensures
        ({
            let (reply, x, rest) = token_over(v, reads, enough());
            &&& reply == Reply::<Option<TokenView>>::Ready(None) <==> blank(unread(v, reads))
            &&& reply == Reply::<Option<TokenView>>::Ready(None) ==> {
                &&& unread(x, rest) == Seq::<u8>::empty()
                &&& token_over(x, rest, enough()).0 == reply
                &&& unread(
                    token_over(x, rest, enough()).1,
                    token_over(x, rest, enough()).2,
                ) == Seq::<u8>::empty()
            }
        }),
{
    let bytes = unread(v, reads);
    law_token_depends_on_bytes(v, reads);
    lemma_lex_all(bytes, v.depth);
    lemma_blank_is_end(bytes, 0, v.depth);
    assert(bytes.skip(0) =~= bytes);
    let (reply, x, rest) = token_over(v, reads, enough());
    if reply == Reply::<Option<TokenView>>::Ready(None) {
        law_token_depends_on_bytes(x, rest);
        lemma_lex_all(Seq::empty(), x.depth);
        lemma_blank_is_end(Seq::empty(), 0, x.depth);
        assert(Seq::<u8>::empty().skip(0) =~= Seq::<u8>::empty());
    }
}

/// A string in quotes, however its characters are spelled and wherever it is cut, even
/// inside a character or an escape, is given as a token of just those characters, and what
/// follows it and the whitespace after it is what is still to come.
pub proof fn law_string_is_read_over_reads(
    v: ReaderView,
    reads: Seq<Seq<u8>>,
    pieces: Seq<Seq<u8>>,
    text: Seq<char>,
    space: Seq<u8>,
    rest: Seq<u8>,
)
    requires
        chunk_laws::valid(v),
        v.at_rest(),
        !v.ended,
        none_empty(reads),
        string_laws::spells_text(pieces, text),
        blank(space),
        rest.len() > 0 ==> !token_laws::white(rest[0]) && rest[0] != ':' as u8,
        unread(v, reads) == string_laws::in_quotes(pieces) + space + rest,
    ensures
        token_over(v, reads, enough()).0 == Reply::Ready(Some(TokenView::String(text))),
        unread(token_over(v, reads, enough()).1, token_over(v, reads, enough()).2) == rest,
{
    let bytes = unread(v, reads);
    let quoted = string_laws::in_quotes(pieces);
    let s = model::events_of(bytes) + ends(enough());
    let tail = model::events_of(rest) + ends(enough());
    let next = tail[0];
    law_token_depends_on_bytes(v, reads);
    string_laws::law_string_is_read(pieces, text, space, next, tail.drop_first(), v.depth);
    assert(s =~= model::events_of(quoted) + (model::events_of(space) + (seq![next]
        + tail.drop_first())));
    let lexed = lex_all(bytes, v.depth);
    if rest.len() > 0 {
        assert(bytes.skip(len_of(lexed)) =~= rest);
    } else {
        assert(rest =~= Seq::<u8>::empty());
    }
}

/// The same for a key: the whitespace and the colon after it are used up.
pub proof fn law_key_is_read_over_reads(
    v: ReaderView,
    reads: Seq<Seq<u8>>,
    pieces: Seq<Seq<u8>>,
    text: Seq<char>,
    space: Seq<u8>,
    rest: Seq<u8>,
)
    requires
        chunk_laws::valid(v),
        v.at_rest(),
        !v.ended,
        none_empty(reads),
        string_laws::spells_text(pieces, text),
        blank(space),
        unread(v, reads) == string_laws::in_quotes(pieces) + space.push(':' as u8) + rest,
    ensures
        token_over(v, reads, enough()).0 == Reply::Ready(Some(TokenView::Key(text))),
        unread(token_over(v, reads, enough()).1, token_over(v, reads, enough()).2) == rest,
{
    let bytes = unread(v, reads);
    let quoted = string_laws::in_quotes(pieces);
    let s = model::events_of(bytes) + ends(enough());
    let tail = model::events_of(rest) + ends(enough());
    law_token_depends_on_bytes(v, reads);
    string_laws::law_key_is_read(pieces, text, space, tail, v.depth);
    assert(s =~= model::events_of(quoted) + (model::events_of(space.push(':' as u8)) + tail));
    let lexed = lex_all(bytes, v.depth);
    assert(bytes.skip(len_of(lexed)) =~= rest);
}

/// What a look over reads remembers: the bytes from where it began.
spec fn looked_over(v: ReaderView, reads: Seq<Seq<u8>>) -> Seq<u8> {
    v.buffer.skip(v.stage->at) + string_laws::concatenated(reads)
}

proof fn lemma_peek_over(v: ReaderView, reads: Seq<Seq<u8>>, left: nat)
    requires
        chunk_laws::valid(v),
        v.stage matches Stage::Peek { item, .. } && !item,
        none_empty(reads),
        end_is_awaited(v),
        grammar::lex(coming(v, reads, left), v.depth) !is More,
    ensures
        ({
            let lexed = grammar::lex(coming(v, reads, left), v.depth);
            let (reply, x, rest) = peek_over(v, reads, left);
            &&& chunk_laws::same_reply(reply, reply_for(lexed))
            &&& chunk_laws::valid(x)
            &&& x.at_rest()
            &&& !x.ended
            &&& x.state == v.state
            &&& x.depth == v.depth
            &&& x.preserve == v.stage->kept
            &&& none_empty(rest)
            &&& unread(x, rest) == looked_over(v, reads)
        }),
    decreases reads.len() + left,
{
    let all = coming(v, reads, left);
    let later = model::events_of(string_laws::concatenated(reads)) + ends(left);
    let w = v.exhausted();
    chunk_laws::lemma_waits(v);
    chunk_laws::lemma_looked_at(v);
    if grammar::lex(v.input(), v.depth) is More {
        if reads.len() > 0 {
            chunk_laws::lemma_wait(v, reads[0]);
            let x = model::filled(w, reads[0]);
            lemma_read_moves(v, x, reads, left);
            assert forall|k: int| 0 <= k < reads.drop_first().len() implies (
            #[trigger] reads.drop_first()[k]).len() > 0 by {
                assert(reads.drop_first()[k] == reads[k + 1]);
            }
            lemma_peek_over(x, reads.drop_first(), left);
            assert(looked_over(x, reads.drop_first()) =~= looked_over(v, reads));
        } else {
            if left == 0 {
                assert(all =~= v.input());
            }
            chunk_laws::lemma_wait(v, Seq::empty());
            let x = model::filled(w, Seq::empty());
            lemma_end_moves(v, x, reads, left);
            lemma_peek_over(x, reads, (left - 1) as nat);
            assert(looked_over(x, reads) =~= looked_over(v, reads));
        }
    } else {
        reveal(model::next_token);
        Place::Start.lemma_stable(v.input(), later, 0, v.depth);
        chunk_laws::lemma_found_beyond_seen(v);
        lemma_end_is_used(v);
    }
}

/// A look at the next token sees what the bytes still to come amount to, however they are
/// cut into reads, and leaves them all to come, even where it had to read.
pub proof fn law_look_leaves_all_bytes(v: ReaderView, reads: Seq<Seq<u8>>)
    requires
        chunk_laws::valid(v),
        v.at_rest(),
        !v.ended,
        none_empty(reads),
    ensures
        ({
            let (reply, x, rest) = peek_over(v, reads, enough());
            &&& chunk_laws::same_reply(reply, reply_for(lex_all(unread(v, reads), v.depth)))
            &&& unread(x, rest) == unread(v, reads)
            &&& x.depth == v.depth
            &&& x.state == v.state
            &&& x.preserve == v.preserve
            &&& chunk_laws::valid(x)
            &&& x.at_rest()
            &&& !x.ended
            &&& none_empty(rest)
        }),
{
    let look = model::begin_peek(v, false);
    lemma_coming_at_rest(v, reads, enough());
    lemma_lex_all(unread(v, reads), v.depth);
    model::lemma_holds_nothing(look);
    assert(look.input() == v.input());
    assert(coming(look, reads, enough()) == coming(v, reads, enough()));
    lemma_peek_over(look, reads, enough());
    assert(model::peek_token(v) == model::peek_token(look));
    assert(peek_over(v, reads, enough()) == peek_over(look, reads, enough()));
}

/// A second look sees the same as the first, and the next token is what both saw: a look
/// uses nothing up, even where it had to read.
pub proof fn law_two_looks_and_a_token(v: ReaderView, reads: Seq<Seq<u8>>)
    requires
        chunk_laws::valid(v),
        v.at_rest(),
        !v.ended,
        none_empty(reads),
    ensures
        ({
            let (first, x, rest) = peek_over(v, reads, enough());
            let (second, y, more) = peek_over(x, rest, enough());
            let third = token_over(y, more, enough()).0;
            &&& chunk_laws::same_reply(first, second)
            &&& chunk_laws::same_reply(first, third)
            &&& first is Ready ==> second == first && third == first
        }),
{
    law_look_leaves_all_bytes(v, reads);
    let (first, x, rest) = peek_over(v, reads, enough());
    law_look_leaves_all_bytes(x, rest);
    let (second, y, more) = peek_over(x, rest, enough());
    law_token_depends_on_bytes(y, more);
}

} // verus!
