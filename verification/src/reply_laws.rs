//! Laws on what the operations of one token reply: what a reply tells of the token that
//! came, and what each kind of token is answered with.
use vstd::prelude::*;

use crate::chunk_laws;
use crate::error::ErrorView;
use crate::model;
use crate::model::{ReaderState, ReaderView, Reply, Stage};
use crate::token;
use crate::token::TokenView;

verus! {

/// The reply is this error.
pub open spec fn fails_with<T>(reply: Reply<T>, error: ErrorView) -> bool {
    reply == Reply::<T>::Failed(error)
}

/// What is no token is handed on: that data is needed, or that the token has a flaw.
pub open spec fn hands_on<T>(v: ReaderView, outcome: (Reply<T>, ReaderView)) -> bool {
    let (next, w) = model::next_token(v);
    &&& next is NeedData ==> outcome == (Reply::<T>::NeedData, w)
    &&& next matches Reply::Failed(error) ==> outcome == (Reply::<T>::Failed(error), w)
    &&& outcome.0 is NeedData ==> next is NeedData
}

/// The token that came, or the end of the stream, is refused: it is used up, nothing else
/// changes, and the error tells what was expected and what was found.
pub open spec fn refuses<T>(
    v: ReaderView,
    outcome: (Reply<T>, ReaderView),
    expected: Seq<char>,
) -> bool {
    let (next, w) = model::next_token(v);
    &&& next matches Reply::Ready(found) && outcome.0 == Reply::<T>::Failed(
        ErrorView::UnexpectedToken { expected, found: token::found_text(found) },
    )
    &&& outcome.1 == w
}

/// The reader behind the next token, before a key or the end of an object.
pub open spec fn behind(v: ReaderView) -> ReaderView {
    ReaderView { state: ReaderState::Object, ..model::next_token(v).1 }
}

/// An object is entered where its brace comes, and nowhere else.
pub proof fn law_object_needs_a_brace(v: ReaderView)
    ensures
        ({
            let next = model::next_token(v).0;
            let outcome = model::start_object(v);
            let brace = next == Reply::Ready(Some(TokenView::StartObject));
            &&& outcome.0 is Ready <==> brace
            &&& brace ==> outcome.1 == behind(v)
            &&& next is Ready && !brace ==> refuses(v, outcome, "{"@)
            &&& hands_on(v, outcome)
        }),
{
}

/// A string is read where a string comes: just its text is the answer, and any other token,
/// null too, is refused, as is the end of the stream.
pub proof fn law_string_needs_a_string(v: ReaderView, text: Seq<char>)
    ensures
        ({
            let next = model::next_token(v).0;
            let outcome = model::read_string(v);
            &&& outcome.0 == Reply::Ready(text) <==> next == Reply::Ready(
                Some(TokenView::String(text)),
            )
            &&& outcome.0 is Ready ==> outcome.1 == behind(v)
            &&& next is Ready && !(next->Ready_0 matches Some(TokenView::String(_))) ==> refuses(
                v,
                outcome,
                "string"@,
            )
            &&& hands_on(v, outcome)
        }),
{
}

/// A string or null is read where one of them comes: a string's text is the answer, null is
/// answered with none, and any other token is refused, as is the end of the stream.
pub proof fn law_nullable_string_needs_a_string_or_null(v: ReaderView, text: Seq<char>)
    ensures
        ({
            let next = model::next_token(v).0;
            let outcome = model::read_nullable_string(v);
            &&& outcome.0 == Reply::Ready(Some(text)) <==> next == Reply::Ready(
                Some(TokenView::String(text)),
            )
            &&& outcome.0 == Reply::Ready(None::<Seq<char>>) <==> next == Reply::Ready(
                Some(TokenView::Null),
            )
            &&& outcome.0 is Ready ==> outcome.1 == behind(v)
            &&& next is Ready && !(next->Ready_0 matches Some(TokenView::String(_))) && next
                != Reply::Ready(Some(TokenView::Null)) ==> refuses(v, outcome, "string"@)
            &&& hands_on(v, outcome)
        }),
{
}

/// The text of a number is read where a number comes: just as it is written, and any other
/// token is refused, as is the end of the stream.
pub proof fn law_number_needs_a_number(v: ReaderView, text: Seq<char>)
    ensures
        ({
            let next = model::next_token(v).0;
            let outcome = model::read_number_text(v);
            &&& outcome.0 == Reply::Ready(text) <==> next == Reply::Ready(
                Some(TokenView::Number(text)),
            )
            &&& outcome.0 is Ready ==> outcome.1 == behind(v)
            &&& next is Ready && !(next->Ready_0 matches Some(TokenView::Number(_))) ==> refuses(
                v,
                outcome,
                "number"@,
            )
            &&& hands_on(v, outcome)
        }),
{
}

/// A boolean is read where a boolean comes, and any other token is refused, as is the end
/// of the stream.
pub proof fn law_boolean_needs_a_boolean(v: ReaderView, b: bool)
    ensures
        ({
            let next = model::next_token(v).0;
            let outcome = model::read_boolean(v);
            &&& outcome.0 == Reply::Ready(b) <==> next == Reply::Ready(
                Some(TokenView::Boolean(b)),
            )
            &&& outcome.0 is Ready ==> outcome.1 == behind(v)
            &&& next is Ready && !(next->Ready_0 matches Some(TokenView::Boolean(_))) ==> refuses(
                v,
                outcome,
                "boolean"@,
            )
            &&& hands_on(v, outcome)
        }),
{
}

/// A look replies what the next token will be, and takes nothing but, at most, note of the
/// end of the stream. Where it waits, it remembers where it began.
pub proof fn law_look_is_the_next_token(v: ReaderView)
    requires
        v.sound(),
        v.at_rest(),
    ensures
        ({
            let (next, w) = model::next_token(v);
            let (reply, x) = model::peek_token(v);
            &&& reply == next
            &&& next !is NeedData ==> x == ReaderView { ended: w.ended, ..v }
            &&& next is NeedData ==> x == ReaderView {
                preserve: true,
                stage: Stage::Peek { at: v.position, kept: v.preserve, item: false },
                ..w
            }
        }),
{
    reveal(model::next_token);
    assert(model::begin_peek(v, false).input() == v.input());
    assert(v.seen =~= Seq::<Option<u8>>::empty());
}

/// A look that waited replies what the token is that it stands in, and goes back to where it
/// began.
pub proof fn law_look_goes_back(v: ReaderView)
    requires
        v.stage is Peek,
    ensures
        ({
            let (next, w) = model::next_token(v);
            let (reply, x) = model::peek_token(v);
            &&& reply == next
            &&& next is NeedData ==> x == w
            &&& next !is NeedData ==> x == ReaderView {
                position: v.stage->at,
                preserve: v.stage->kept,
                ended: w.ended,
                seen: Seq::empty(),
                stage: Stage::Idle,
                ..v
            }
        }),
{
    reveal(model::next_token);
}

/// The next item of an array is announced by a comma, an array's end by its closing bracket,
/// and an array that opens by what stands in it. Nothing else is taken for an item or for an
/// end: it is refused, as is the end of the stream.
pub proof fn law_item_needs_a_bracket_or_a_comma(v: ReaderView)
    requires
        v.stage is Idle,
    ensures
        ({
            let (next, w) = model::next_token(v);
            let outcome = model::start_array_item(v);
            let comma = next == Reply::Ready(Some(TokenView::EndObjectOrListItem));
            let end = next == Reply::Ready(Some(TokenView::EndArray));
            let open = next == Reply::Ready(Some(TokenView::StartArray));
            &&& comma ==> outcome == (Reply::Ready(true), w)
            &&& end ==> outcome == (Reply::Ready(false), behind(v))
            &&& next is Ready && !comma && !end && !open ==> refuses(v, outcome, "[ or , or ]"@)
            &&& !open ==> hands_on(v, outcome)
        }),
{
}

/// What a look at the first token of an array tells of its items: that there is none where
/// that token, which is then used up, closes the array.
pub open spec fn first_item_told(
    looked: (Reply<Option<TokenView>>, ReaderView),
    outcome: (Reply<bool>, ReaderView),
) -> bool {
    let (found, x) = looked;
    &&& outcome.0 == Reply::Ready(false) <==> found == Reply::Ready(Some(TokenView::EndArray))
    &&& outcome.0 == Reply::Ready(true) <==> found is Ready && found != Reply::Ready(
        Some(TokenView::EndArray),
    )
    &&& outcome.0 == Reply::Ready(false) ==> model::next_token(x).0 == found && outcome.1
        == behind(x)
    &&& outcome.0 == Reply::Ready(true) ==> outcome.1 == x
    &&& found matches Reply::Failed(error) ==> outcome == (Reply::<bool>::Failed(error), x)
    &&& found is NeedData <==> outcome.0 is NeedData
}

/// An array that opens has an item unless its closing bracket comes at once. A first item is
/// left for the next operation; a closing bracket is used up.
pub proof fn law_opened_array_has_an_item_or_ends(v: ReaderView)
    requires
        v.sound(),
        v.stage is Idle,
        model::next_token(v).0 == Reply::Ready(Some(TokenView::StartArray)),
    ensures
        model::next_token(v).1.at_rest(),
        first_item_told(model::peek_token(model::next_token(v).1), model::start_array_item(v)),
        model::start_array_item(v).0 is NeedData ==> model::start_array_item(v).1 == {
            let w = model::next_token(v).1;
            ReaderView {
                stage: Stage::Peek { at: w.position, kept: w.preserve, item: true },
                ..model::peek_token(w).1
            }
        },
{
    let w = model::next_token(v).1;
    model::lemma_next_token_shrinks(v);
    let look = model::begin_peek(w, true);
    model::lemma_holds_nothing(look);
    chunk_laws::lemma_end_seen_is_taken(look);
    reveal(model::next_token);
    assert(model::begin_peek(w, false).input() == look.input());
}

/// The same, where the look at the first token had to wait.
pub proof fn law_first_item_is_looked_for_again(v: ReaderView)
    requires
        chunk_laws::valid(v),
        v.stage matches Stage::Peek { item, .. } && item,
    ensures
        first_item_told(model::peek_token(v), model::start_array_item(v)),
        model::start_array_item(v).0 is NeedData ==> model::start_array_item(v).1
            == model::peek_token(v).1,
{
    chunk_laws::lemma_end_seen_is_taken(v);
}

} // verus!
