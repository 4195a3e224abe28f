//! The grammar of tokens.
//!
//! Input is a sequence of events: `Some(byte)` for a byte of the stream, `None`
//! for a read that brought no byte because the stream was at its end. Each
//! function below says what the input from index `i` on amounts to, given what
//! came before it: a token, a flaw, or nothing yet because the input stops short.
use vstd::prelude::*;
use vstd::utf8::*;

use crate::text;
use crate::token::TokenView;

verus! {

/// What is wrong with the input.
pub enum FlawView {
    /// Malformed JSON, noticed `back` bytes after the place that the error names.
    Json { error: Seq<char>, back: int },
    /// A literal that is not spelled as expected.
    Unexpected { expected: Seq<char>, found: Seq<char> },
}

/// What the input amounts to. `len` counts the events that belong to it.
pub enum Lexed {
    /// The input stops before the token is complete.
    More,
    /// The stream ended before any token began.
    End { len: int },
    Token { token: TokenView, len: int },
    Flaw { flaw: FlawView, len: int },
}

/// The three literals.
#[derive(Clone, Copy, PartialEq, Eq, Structural, Debug)]
pub enum Word {
    Null,
    True,
    False,
}

impl Word {
    /// The bytes of the literal.
    pub open spec fn letters(self) -> Seq<u8> {
        match self {
            Word::Null => seq!['n' as u8, 'u' as u8, 'l' as u8, 'l' as u8],
            Word::True => seq!['t' as u8, 'r' as u8, 'u' as u8, 'e' as u8],
            Word::False => seq!['f' as u8, 'a' as u8, 'l' as u8, 's' as u8, 'e' as u8],
        }
    }

    /// The literal as an error message shows it.
    pub open spec fn spelling(self) -> Seq<char> {
        match self {
            Word::Null => "null"@,
            Word::True => "true"@,
            Word::False => "false"@,
        }
    }

    /// The token that the literal stands for.
    pub open spec fn token(self) -> TokenView {
        match self {
            Word::Null => TokenView::Null,
            Word::True => TokenView::Boolean(true),
            Word::False => TokenView::Boolean(false),
        }
    }
}

pub open spec fn is_whitespace(b: u8) -> bool {
    b == ' ' as u8 || b == '\n' as u8 || b == '\r' as u8 || b == '\t' as u8
}

pub open spec fn is_digit(b: u8) -> bool {
    '0' as u8 <= b && b <= '9' as u8
}

/// A flaw in the JSON text at the place reached.
pub open spec fn malformed(error: Seq<char>, len: int) -> Lexed {
    Lexed::Flaw { flaw: FlawView::Json { error, back: 0 }, len }
}

/// A flaw in the JSON text that starts `back` bytes before the place reached.
pub open spec fn malformed_before(error: Seq<char>, back: int, len: int) -> Lexed {
    Lexed::Flaw { flaw: FlawView::Json { error, back }, len }
}

/// The stream ended where a further byte is required.
pub open spec fn cut_short(len: int) -> Lexed {
    malformed("Unexpected EOF while requesting to fill buffer"@, len)
}

/// One event or none.
pub open spec fn events(used: bool) -> int {
    if used {
        1
    } else {
        0
    }
}

/// The first token of the input, inside `depth` open brackets.
pub open spec fn lex(s: Seq<Option<u8>>, depth: int) -> Lexed {
    token_start(s, 0, depth)
}

/// Whitespace, then a token.
pub open spec fn token_start(s: Seq<Option<u8>>, i: int, depth: int) -> Lexed
    decreases s.len() - i,
{
    if i >= s.len() {
        Lexed::More
    } else {
        match s[i] {
            None => Lexed::End { len: i + 1 },
            Some(b) => if is_whitespace(b) {
                token_start(s, i + 1, depth)
            } else {
                token_from(s, i, b, depth)
            },
        }
    }
}

/// A token whose first byte is `b`, at index `i`.
pub open spec fn token_from(s: Seq<Option<u8>>, i: int, b: u8, depth: int) -> Lexed {
    if b == '{' as u8 {
        Lexed::Token { token: TokenView::StartObject, len: i + 1 }
    } else if b == '}' as u8 && depth > 0 {
        Lexed::Token { token: TokenView::EndObject, len: i + 1 }
    } else if b == '[' as u8 {
        Lexed::Token { token: TokenView::StartArray, len: i + 1 }
    } else if b == ']' as u8 && depth > 0 {
        Lexed::Token { token: TokenView::EndArray, len: i + 1 }
    } else if b == ',' as u8 {
        Lexed::Token { token: TokenView::EndObjectOrListItem, len: i + 1 }
    } else if b == '"' as u8 {
        string_body(s, i + 1, Seq::empty())
    } else if b == 'n' as u8 {
        literal(s, i + 1, Word::Null, 1)
    } else if b == 't' as u8 {
        literal(s, i + 1, Word::True, 1)
    } else if b == 'f' as u8 {
        literal(s, i + 1, Word::False, 1)
    } else if b == '-' as u8 {
        integer_part(s, i + 1, seq!['-'], false)
    } else if is_digit(b) {
        integer_part(s, i, Seq::empty(), false)
    } else {
        malformed("Unexpected JSON character: "@.push(b as char), i)
    }
}

/// The rest of a literal of which `matched` letters have been read.
pub open spec fn literal(s: Seq<Option<u8>>, i: int, word: Word, matched: int) -> Lexed
    decreases s.len() - i,
{
    if matched >= word.letters().len() {
        Lexed::Token { token: word.token(), len: i }
    } else if i >= s.len() {
        Lexed::More
    } else {
        match s[i] {
            None => cut_short(i + 1),
            Some(b) => if b == word.letters()[matched] {
                literal(s, i + 1, word, matched + 1)
            } else {
                Lexed::Flaw {
                    flaw: FlawView::Unexpected {
                        expected: word.spelling(),
                        found: seq![b as char],
                    },
                    len: i,
                }
            },
        }
    }
}

/// The digits before the point, `any` of which may have been read.
pub open spec fn integer_part(s: Seq<Option<u8>>, i: int, text: Seq<char>, any: bool) -> Lexed
    decreases s.len() - i,
{
    if i >= s.len() {
        Lexed::More
    } else {
        match s[i] {
            Some(b) if is_digit(b) => integer_part(s, i + 1, text.push(b as char), true),
            other => {
                let end = past_end(other, i);
                if any {
                    fraction(s, end, text)
                } else {
                    malformed("InvalidNumber: "@ + text, end)
                }
            },
        }
    }
}

/// The index after an event that ends a run of digits: the end of the stream is
/// used up, a byte is left for what follows.
pub open spec fn past_end(event: Option<u8>, i: int) -> int {
    if event is None {
        i + 1
    } else {
        i
    }
}

/// A point and its digits, or neither.
pub open spec fn fraction(s: Seq<Option<u8>>, i: int, text: Seq<char>) -> Lexed {
    if i >= s.len() {
        Lexed::More
    } else if s[i] == Some('.' as u8) {
        fraction_start(s, i + 1, text.push('.'))
    } else {
        exponent(s, past_end(s[i], i), text)
    }
}

/// At least one digit must follow the point.
pub open spec fn fraction_start(s: Seq<Option<u8>>, i: int, text: Seq<char>) -> Lexed {
    if i >= s.len() {
        Lexed::More
    } else {
        match s[i] {
            None => malformed("InvalidNumber: unexpected EOF after decimal point"@, i + 1),
            Some(b) => if is_digit(b) {
                fraction_digits(s, i, text)
            } else {
                malformed("Invalid character after decimal point: "@.push(b as char), i)
            },
        }
    }
}

/// The digits after the point.
pub open spec fn fraction_digits(s: Seq<Option<u8>>, i: int, text: Seq<char>) -> Lexed
    decreases s.len() - i,
{
    if i >= s.len() {
        Lexed::More
    } else {
        match s[i] {
            Some(b) if is_digit(b) => fraction_digits(s, i + 1, text.push(b as char)),
            other => exponent(s, past_end(other, i), text),
        }
    }
}

/// An exponent, or none.
pub open spec fn exponent(s: Seq<Option<u8>>, i: int, text: Seq<char>) -> Lexed {
    if i >= s.len() {
        Lexed::More
    } else if s[i] == Some('e' as u8) {
        exponent_sign(s, i + 1, text.push('e'))
    } else if s[i] == Some('E' as u8) {
        exponent_sign(s, i + 1, text.push('E'))
    } else {
        number_end(text, past_end(s[i], i))
    }
}

/// The sign of the exponent, or none.
pub open spec fn exponent_sign(s: Seq<Option<u8>>, i: int, text: Seq<char>) -> Lexed {
    if i >= s.len() {
        Lexed::More
    } else if s[i] == Some('+' as u8) {
        exponent_start(s, i + 1, text.push('+'))
    } else if s[i] == Some('-' as u8) {
        exponent_start(s, i + 1, text.push('-'))
    } else {
        exponent_start(s, past_end(s[i], i), text)
    }
}

/// At least one digit must stand in the exponent.
pub open spec fn exponent_start(s: Seq<Option<u8>>, i: int, text: Seq<char>) -> Lexed {
    if i >= s.len() {
        Lexed::More
    } else {
        match s[i] {
            None => malformed("InvalidNumber: unexpected EOF after exponent"@, i + 1),
            Some(b) => if is_digit(b) {
                exponent_digits(s, i, text)
            } else {
                malformed("Invalid character after exponent: "@.push(b as char), i)
            },
        }
    }
}

/// The digits of the exponent.
pub open spec fn exponent_digits(s: Seq<Option<u8>>, i: int, text: Seq<char>) -> Lexed
    decreases s.len() - i,
{
    if i >= s.len() {
        Lexed::More
    } else {
        match s[i] {
            Some(b) if is_digit(b) => exponent_digits(s, i + 1, text.push(b as char)),
            other => number_end(text, past_end(other, i)),
        }
    }
}

/// A complete number, which must not start with a superfluous zero.
pub open spec fn number_end(text: Seq<char>, len: int) -> Lexed {
    if zero_led(text, 0) || (text.len() > 0 && text[0] == '-' && zero_led(text, 1)) {
        malformed("Invalid number: leading zeros are not allowed"@, len)
    } else {
        Lexed::Token { token: TokenView::Number(text), len }
    }
}

/// A zero stands at index `i`, and what follows it neither ends the number nor
/// starts a fraction or an exponent.
pub open spec fn zero_led(text: Seq<char>, i: int) -> bool {
    &&& i + 1 < text.len()
    &&& text[i] == '0'
    &&& text[i + 1] != '.'
    &&& text[i + 1] != 'e'
    &&& text[i + 1] != 'E'
}

/// The rest of a string whose content so far is `content`.
pub open spec fn string_body(s: Seq<Option<u8>>, i: int, content: Seq<u8>) -> Lexed
    decreases s.len() - i, 0int,
{
    if i >= s.len() {
        Lexed::More
    } else {
        match s[i] {
            None => malformed("Unexpected EOF while parsing string"@, i + 1),
            Some(b) => if b == '"' as u8 {
                if valid_utf8(content) {
                    after_string(s, i + 1, decode_utf8(content))
                } else {
                    malformed(
                        "Invalid UTF-8 in string: "@ + text::utf8_complaint(
                            text::utf8_error(content),
                        ),
                        i + 1,
                    )
                }
            } else if b == '\\' as u8 {
                escape(s, i + 1, content)
            } else {
                string_body(s, i + 1, content.push(b))
            },
        }
    }
}

/// What stands after the closing quote decides: a colon, possibly after
/// whitespace, makes the string a key.
pub open spec fn after_string(s: Seq<Option<u8>>, i: int, text: Seq<char>) -> Lexed
    decreases s.len() - i,
{
    if i >= s.len() {
        Lexed::More
    } else {
        match s[i] {
            None => Lexed::Token { token: TokenView::String(text), len: i + 1 },
            Some(b) => if is_whitespace(b) {
                after_string(s, i + 1, text)
            } else if b == ':' as u8 {
                Lexed::Token { token: TokenView::Key(text), len: i + 1 }
            } else {
                Lexed::Token { token: TokenView::String(text), len: i }
            },
        }
    }
}

/// The byte that a one-letter escape stands for.
pub open spec fn escaped(b: u8) -> Option<u8> {
    if b == '"' as u8 || b == '\\' as u8 || b == '/' as u8 {
        Some(b)
    } else if b == 'b' as u8 {
        Some(8)
    } else if b == 'f' as u8 {
        Some(12)
    } else if b == 'n' as u8 {
        Some(10)
    } else if b == 'r' as u8 {
        Some(13)
    } else if b == 't' as u8 {
        Some(9)
    } else {
        None
    }
}

/// What follows a backslash.
pub open spec fn escape(s: Seq<Option<u8>>, i: int, content: Seq<u8>) -> Lexed
    decreases s.len() - i, 0int,
{
    if i >= s.len() {
        Lexed::More
    } else {
        match s[i] {
            None => cut_short(i + 1),
            Some(b) => if b == 'u' as u8 {
                code_unit(s, i + 1, content, Seq::empty(), None)
            } else {
                match escaped(b) {
                    Some(c) => string_body(s, i + 1, content.push(c)),
                    None => malformed("Invalid JSON escape sequence: \\"@.push(b as char), i + 1),
                }
            },
        }
    }
}

/// The value of a hexadecimal digit.
pub open spec fn hex_digit(b: u8) -> Option<int> {
    if '0' as u8 <= b && b <= '9' as u8 {
        Some(b - 48)
    } else if 'a' as u8 <= b && b <= 'f' as u8 {
        Some(b - 87)
    } else if 'A' as u8 <= b && b <= 'F' as u8 {
        Some(b - 55)
    } else {
        None
    }
}

/// The value of a string of hexadecimal digits.
pub open spec fn hex_value(digits: Seq<u8>) -> Option<int>
    decreases digits.len(),
{
    if digits.len() == 0 {
        Some(0)
    } else {
        match (hex_value(digits.drop_last()), hex_digit(digits.last())) {
            (Some(high), Some(low)) => Some(16 * high + low),
            _ => None,
        }
    }
}

/// The four bytes of a unicode escape, of which `digits` have been read. `high` is
/// the high surrogate that precedes it, if one does.
pub open spec fn code_unit(
    s: Seq<Option<u8>>,
    i: int,
    content: Seq<u8>,
    digits: Seq<u8>,
    high: Option<u32>,
) -> Lexed
    decreases s.len() - i, 0int,
{
    if i >= s.len() {
        Lexed::More
    } else {
        match s[i] {
            None => cut_short(i + 1),
            Some(b) => if digits.len() < 3 {
                code_unit(s, i + 1, content, digits.push(b), high)
            } else {
                code_unit_end(s, i + 1, content, digits.push(b), high)
            },
        }
    }
}

/// The four bytes of a unicode escape have been read.
pub open spec fn code_unit_end(
    s: Seq<Option<u8>>,
    i: int,
    content: Seq<u8>,
    digits: Seq<u8>,
    high: Option<u32>,
) -> Lexed
    decreases s.len() - i, 1int,
{
    if !valid_utf8(digits) {
        malformed_before("Invalid UTF-8 in unicode escape sequence"@, 4, i)
    } else {
        match hex_value(digits) {
            None => malformed_before(
                "Invalid hex value in unicode escape sequence: "@ + decode_utf8(digits),
                4,
                i,
            ),
            Some(unit) => match high {
                None => if 0xD800 <= unit <= 0xDBFF {
                    low_surrogate_backslash(s, i, content, unit as u32)
                } else if 0xDC00 <= unit <= 0xDFFF {
                    malformed_before("Unmatched low surrogate in Unicode escape sequence"@, 4, i)
                } else {
                    string_body(s, i, content + encode_scalar(unit as u32))
                },
                Some(high_unit) => if 0xDC00 <= unit <= 0xDFFF {
                    string_body(
                        s,
                        i,
                        content + encode_scalar(surrogate_pair(high_unit as int, unit) as u32),
                    )
                } else {
                    malformed_before(
                        "High surrogate not followed by low surrogate. Got "@ + text::numeral(
                            unit as nat,
                            16,
                        ),
                        6,
                        i,
                    )
                },
            },
        }
    }
}

/// The code point that a high and a low surrogate stand for together.
pub open spec fn surrogate_pair(high: int, low: int) -> int {
    0x10000 + (high - 0xD800) * 0x400 + (low - 0xDC00)
}

/// A backslash must follow a high surrogate.
pub open spec fn low_surrogate_backslash(
    s: Seq<Option<u8>>,
    i: int,
    content: Seq<u8>,
    high: u32,
) -> Lexed
    decreases s.len() - i, 0int,
{
    if i >= s.len() {
        Lexed::More
    } else {
        match s[i] {
            None => cut_short(i + 1),
            Some(b) => if b == '\\' as u8 {
                low_surrogate_letter(s, i + 1, content, high)
            } else {
                malformed("Unmatched high surrogate in Unicode escape sequence"@, i)
            },
        }
    }
}

/// A `u` must follow that backslash.
pub open spec fn low_surrogate_letter(
    s: Seq<Option<u8>>,
    i: int,
    content: Seq<u8>,
    high: u32,
) -> Lexed
    decreases s.len() - i, 0int,
{
    if i >= s.len() {
        Lexed::More
    } else {
        match s[i] {
            None => cut_short(i + 1),
            Some(b) => if b == 'u' as u8 {
                code_unit(s, i + 1, content, Seq::empty(), Some(high))
            } else {
                malformed("Unmatched high surrogate in Unicode escape sequence"@, i)
            },
        }
    }
}

} // verus!
