//! Laws on the texts that errors are told with.
use vstd::prelude::*;

use crate::error;
use crate::error::{AsyncJsonStreamReaderError, ErrorView};
use crate::reader;
use crate::reader::Progress;
use crate::text;
use crate::token;
use crate::token::TokenView;

verus! {

/// The character is the digit of the value `d`.
pub open spec fn digit_of(c: char, d: int) -> bool {
    0 <= d < 16 && c == "0123456789abcdef"@[d]
}

/// The text is a numeral of `n` in the base: its last digit is the rest of a division by the
/// base, and the digits before it are a numeral of the quotient. A zero stands first only
/// where it stands alone.
pub open spec fn writes_number(text: Seq<char>, n: nat, base: nat) -> bool
    decreases text.len(),
{
    if text.len() == 0 {
        false
    } else if text.len() == 1 {
        n < base && digit_of(text[0], n as int)
    } else {
        &&& n >= base
        &&& digit_of(text.last(), n as int % base as int)
        &&& writes_number(text.drop_last(), (n as int / base as int) as nat, base)
    }
}

/// A number is written out as its numeral.
pub proof fn law_numeral_is_that_of_the_number(n: nat, base: nat)
    requires
        2 <= base <= 16,
    ensures
        writes_number(text::numeral(n, base), n, base),
        text::numeral(n, base).len() > 0,
    decreases n,
{
    reveal_strlit("0123456789abcdef");
    if n >= base {
        assert(n / base < n) by (nonlinear_arith)
            requires
                base >= 2,
                n >= base,
        ;
        law_numeral_is_that_of_the_number(n / base, base);
        let front = text::numeral(n / base, base);
        assert(text::numeral(n, base) == front.push(text::digit_char(n % base)));
        assert(text::numeral(n, base).drop_last() =~= front);
        assert(n % base < base) by (nonlinear_arith)
            requires
                base >= 2,
        ;
    }
}

/// A token is shown by the name of its kind, with its text, quoted, in brackets.
pub proof fn law_token_is_shown_by_its_name(text: Seq<char>)
    ensures
        token::token_text(TokenView::StartObject) == "StartObject"@,
        token::token_text(TokenView::EndObjectOrListItem) == "EndObjectOrListItem"@,
        token::token_text(TokenView::EndObject) == "EndObject"@,
        token::token_text(TokenView::StartArray) == "StartArray"@,
        token::token_text(TokenView::EndArray) == "EndArray"@,
        token::token_text(TokenView::Null) == "Null"@,
        token::token_text(TokenView::Boolean(true)) == "Boolean(true)"@,
        token::token_text(TokenView::Boolean(false)) == "Boolean(false)"@,
        token::token_text(TokenView::Key(text)) == "Key("@ + text::debug_text(text) + ")"@,
        token::token_text(TokenView::String(text)) == "String("@ + text::debug_text(text) + ")"@,
        token::token_text(TokenView::Number(text)) == "Number("@ + text::debug_text(text) + ")"@,
{
}

/// What was found is shown as some token, or as none at the end of the stream.
pub proof fn law_found_is_shown(t: TokenView)
    ensures
        token::found_text(Some(t)) == "Some("@ + token::token_text(t) + ")"@,
        token::found_text(None) == "None"@,
{
}

/// An error keeps its kind, its texts and its position in its view.
pub proof fn law_error_is_what_it_shows(e: AsyncJsonStreamReaderError)
    ensures
        e matches AsyncJsonStreamReaderError::Io(message) ==> e@ == ErrorView::Io(message@),
        e matches AsyncJsonStreamReaderError::JsonError { error, position } ==> e@
            == (ErrorView::JsonError { error: error@, position: position as int }),
        e matches AsyncJsonStreamReaderError::UnexpectedToken { expected, found } ==> e@
            == (ErrorView::UnexpectedToken { expected: expected@, found: found@ }),
        e matches AsyncJsonStreamReaderError::InternalState { message } ==> e@
            == (ErrorView::InternalState { message: message@ }),
{
}

/// The sentence for an error names its kind and all that it holds.
pub proof fn law_sentence_tells_all(a: Seq<char>, b: Seq<char>, position: nat)
    ensures
        error::error_text(ErrorView::Io(a)) == "IO error: "@ + a,
        error::error_text(ErrorView::JsonError { error: a, position: position as int })
            == "JSON error: "@ + a + ", position: "@ + text::numeral(position, 10),
        error::error_text(ErrorView::UnexpectedToken { expected: a, found: b })
            == "Unexpected token: expected "@ + a + ", found "@ + b,
        error::error_text(ErrorView::InternalState { message: a }) == "Internal state error: "@ + a,
{
}

/// What the caller's parser makes of a number is what comes of reading it: a value is handed
/// on as it is, whatever the number, and an error comes only of the parser's own, with the
/// number and the reason.
pub proof fn law_parsed_number_is_handed_on<T>(
    progress: Progress<T>,
    number: Seq<char>,
    parsed: Result<T, String>,
    position: int,
)
    requires
        reader::number_agrees(progress, number, parsed, position),
    ensures
        progress is Ready,
        parsed matches Ok(value) ==> progress == Progress::Ready(Ok(value)),
        progress matches Progress::Ready(Ok(value)) ==> parsed == Ok::<T, String>(value),
        progress matches Progress::Ready(Err(error)) ==> parsed matches Err(reason) && error@ == (
        ErrorView::JsonError {
            error: "Can't parse number "@ + number + ": "@ + reason@,
            position,
        }),
{
}

} // verus!
