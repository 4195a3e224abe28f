//! The tokenizer: a machine that takes one event at a time, so that a token may
//! be spread over any number of reads.
use vstd::prelude::*;
use vstd::utf8::*;

use crate::grammar;
use crate::grammar::{FlawView, Lexed, Word};
use crate::place;
use crate::place::{Place, Turn};
use crate::text::{complaint, join, join_byte, write_numeral};
use crate::token::JsonToken;

verus! {

/// What is wrong with the input.
pub enum Flaw {
    Json { error: String, back: usize },
    Unexpected { expected: &'static str, found: String },
}

impl View for Flaw {
    type V = FlawView;

    open spec fn view(&self) -> FlawView {
        match self {
            Flaw::Json { error, back } => FlawView::Json { error: error@, back: *back as int },
            Flaw::Unexpected { expected, found } => FlawView::Unexpected {
                expected: expected@,
                found: found@,
            },
        }
    }
}

/// How far a token has been read.
pub enum Phase {
    /// Nothing but whitespace so far.
    Start,
    /// In a literal, after `matched` letters.
    Literal { word: Word, matched: usize },
    /// In a number, where the grammar function of the same name stands.
    IntegerPart { text: String, any: bool },
    Fraction { text: String },
    FractionStart { text: String },
    FractionDigits { text: String },
    Exponent { text: String },
    ExponentSign { text: String },
    ExponentStart { text: String },
    ExponentDigits { text: String },
    /// In a string, where the grammar function of the same name stands.
    StringBody { content: Vec<u8> },
    Escape { content: Vec<u8> },
    CodeUnit { content: Vec<u8>, digits: Vec<u8>, high: Option<u32> },
    LowSurrogateBackslash { content: Vec<u8>, unit: u32 },
    LowSurrogateLetter { content: Vec<u8>, unit: u32 },
    AfterString { text: String },
}

/// What one event leads to. `used` tells whether the event is used up by it.
pub enum Move {
    On { phase: Phase, used: bool },
    End,
    Token { token: JsonToken, used: bool },
    Flaw { flaw: Flaw, used: bool },
}

impl View for Move {
    type V = Turn;

    open spec fn view(&self) -> Turn {
        match *self {
            Move::On { phase, used } => Turn::On { place: phase@, used },
            Move::End => Turn::End,
            Move::Token { token, used } => Turn::Token { token: token@, used },
            Move::Flaw { flaw, used } => Turn::Flaw { flaw: flaw@, used },
        }
    }
}

impl View for Phase {
    type V = Place;

    open spec fn view(&self) -> Place {
        match *self {
            Phase::Start => Place::Start,
            Phase::Literal { word, matched } => Place::Literal { word, matched: matched as int },
            Phase::IntegerPart { text, any } => Place::IntegerPart { text: text@, any },
            Phase::Fraction { text } => Place::Fraction { text: text@ },
            Phase::FractionStart { text } => Place::FractionStart { text: text@ },
            Phase::FractionDigits { text } => Place::FractionDigits { text: text@ },
            Phase::Exponent { text } => Place::Exponent { text: text@ },
            Phase::ExponentSign { text } => Place::ExponentSign { text: text@ },
            Phase::ExponentStart { text } => Place::ExponentStart { text: text@ },
            Phase::ExponentDigits { text } => Place::ExponentDigits { text: text@ },
            Phase::StringBody { content } => Place::StringBody { content: content@ },
            Phase::Escape { content } => Place::Escape { content: content@ },
            Phase::CodeUnit { content, digits, high } => Place::CodeUnit {
                content: content@,
                digits: digits@,
                high,
            },
            Phase::LowSurrogateBackslash { content, unit } => Place::LowSurrogateBackslash {
                content: content@,
                unit,
            },
            Phase::LowSurrogateLetter { content, unit } => Place::LowSurrogateLetter {
                content: content@,
                unit,
            },
            Phase::AfterString { text } => Place::AfterString { text: text@ },
        }
    }
}

impl Phase {
    /// A literal is not complete, a unicode escape is not complete, and a
    /// remembered high surrogate is one.
    pub open spec fn wf(self) -> bool {
        match self {
            Phase::Literal { word, matched } => matched < word.letters().len(),
            Phase::CodeUnit { digits, high, .. } => {
                &&& digits@.len() < 4
                &&& high matches Some(unit) ==> 0xD800 <= unit <= 0xDBFF
            },
            Phase::LowSurrogateBackslash { unit, .. } => 0xD800 <= unit <= 0xDBFF,
            Phase::LowSurrogateLetter { unit, .. } => 0xD800 <= unit <= 0xDBFF,
            _ => true,
        }
    }

    /// `seen` has been read and has led to this phase: whatever input follows it,
    /// the grammar goes on from here.
    pub closed spec fn reached(self, seen: Seq<Option<u8>>, depth: int) -> bool {
        forall|rest: Seq<Option<u8>>|
            #![trigger grammar::lex(seen + rest, depth)]
            grammar::lex(seen + rest, depth) == self@.outcome(seen + rest, seen.len() as int, depth)
    }
}

impl Word {
    /// The letter at index `k`.
    fn letter(self, k: usize) -> (b: u8)
        requires
            k < self.letters().len(),
        ensures
            b == self.letters()[k as int],
    {
        match self {
            Word::Null => if k == 0 {
                'n' as u8
            } else if k == 1 {
                'u' as u8
            } else {
                'l' as u8
            },
            Word::True => if k == 0 {
                't' as u8
            } else if k == 1 {
                'r' as u8
            } else if k == 2 {
                'u' as u8
            } else {
                'e' as u8
            },
            Word::False => if k == 0 {
                'f' as u8
            } else if k == 1 {
                'a' as u8
            } else if k == 2 {
                'l' as u8
            } else if k == 3 {
                's' as u8
            } else {
                'e' as u8
            },
        }
    }

    fn letter_count(self) -> (n: usize)
        ensures
            n == self.letters().len(),
    {
        match self {
            Word::Null => 4,
            Word::True => 4,
            Word::False => 5,
        }
    }

    fn text(self) -> (r: &'static str)
        ensures
            r@ == self.spelling(),
    {
        match self {
            Word::Null => "null",
            Word::True => "true",
            Word::False => "false",
        }
    }

    fn into_token(self) -> (r: JsonToken)
        ensures
            r@ == self.token(),
    {
        match self {
            Word::Null => JsonToken::Null,
            Word::True => JsonToken::Boolean(true),
            Word::False => JsonToken::Boolean(false),
        }
    }
}

fn whitespace(b: u8) -> (r: bool)
    ensures
        r == grammar::is_whitespace(b),
{
    b == ' ' as u8 || b == '\n' as u8 || b == '\r' as u8 || b == '\t' as u8
}

fn digit(b: u8) -> (r: bool)
    ensures
        r == grammar::is_digit(b),
{
    '0' as u8 <= b && b <= '9' as u8
}

fn flaw(error: String, used: bool) -> (step: Move)
    ensures
        step@ == place::wrong(error@, used),
{
    Move::Flaw { flaw: Flaw::Json { error, back: 0 }, used }
}

fn flaw_before(error: String, back: usize) -> (step: Move)
    ensures
        step@ == (Turn::Flaw {
            flaw: FlawView::Json { error: error@, back: back as int },
            used: true,
        }),
{
    Move::Flaw { flaw: Flaw::Json { error, back }, used: true }
}

fn cut_short() -> (step: Move)
    ensures
        step@ == place::cut(),
{
    flaw("Unexpected EOF while requesting to fill buffer".to_string(), true)
}

fn push_byte(text: String, b: u8) -> (r: String)
    ensures
        r@ == text@.push(b as char),
{
    let mut r = text;
    r.push(b as char);
    r
}

/// Before the first byte of a token.
fn start_move(event: Option<u8>, depth: usize) -> (step: Move)
    ensures
        step@ == Phase::Start@.turn(event, depth as int),
        step matches Move::On { phase, .. } ==> phase.wf(),
{
    let b = match event {
        None => {
            return Move::End;
        },
        Some(b) => b,
    };
    if whitespace(b) {
        Move::On { phase: Phase::Start, used: true }
    } else if b == '{' as u8 {
        Move::Token { token: JsonToken::StartObject, used: true }
    } else if b == '}' as u8 && depth > 0 {
        Move::Token { token: JsonToken::EndObject, used: true }
    } else if b == '[' as u8 {
        Move::Token { token: JsonToken::StartArray, used: true }
    } else if b == ']' as u8 && depth > 0 {
        Move::Token { token: JsonToken::EndArray, used: true }
    } else if b == ',' as u8 {
        Move::Token { token: JsonToken::EndObjectOrListItem, used: true }
    } else if b == '"' as u8 {
        let content: Vec<u8> = Vec::new();
        assert(content@ =~= Seq::<u8>::empty());
        Move::On { phase: Phase::StringBody { content }, used: true }
    } else if b == 'n' as u8 {
        Move::On { phase: Phase::Literal { word: Word::Null, matched: 1 }, used: true }
    } else if b == 't' as u8 {
        Move::On { phase: Phase::Literal { word: Word::True, matched: 1 }, used: true }
    } else if b == 'f' as u8 {
        Move::On { phase: Phase::Literal { word: Word::False, matched: 1 }, used: true }
    } else if b == '-' as u8 {
        let text = push_byte(String::new(), b);
        assert(text@ =~= seq!['-']);
        Move::On { phase: Phase::IntegerPart { text, any: false }, used: true }
    } else if digit(b) {
        Move::On { phase: Phase::IntegerPart { text: String::new(), any: false }, used: false }
    } else {
        flaw(join_byte("Unexpected JSON character: ", b), false)
    }
}

/// Inside a literal.
fn literal_move(word: Word, matched: usize, event: Option<u8>, depth: usize) -> (step: Move)
    requires
        matched < word.letters().len(),
    ensures
        step@ == (Phase::Literal { word, matched })@.turn(event, depth as int),
        step matches Move::On { phase, .. } ==> phase.wf(),
{
    match event {
        None => cut_short(),
        Some(b) => if b == word.letter(matched) {
            if matched + 1 < word.letter_count() {
                Move::On { phase: Phase::Literal { word, matched: matched + 1 }, used: true }
            } else {
                Move::Token { token: word.into_token(), used: true }
            }
        } else {
            let mut found = String::new();
            found.push(b as char);
            assert(found@ =~= seq![b as char]);
            Move::Flaw { flaw: Flaw::Unexpected { expected: word.text(), found }, used: false }
        },
    }
}

/// Among the digits before the point.
fn integer_part_move(text: String, any: bool, event: Option<u8>, depth: usize) -> (step: Move)
    ensures
        step@ == (Phase::IntegerPart { text, any })@.turn(event, depth as int),
        step matches Move::On { phase, .. } ==> phase.wf(),
{
    match event {
        Some(b) if digit(b) => Move::On {
            phase: Phase::IntegerPart { text: push_byte(text, b), any: true },
            used: true,
        },
        _ => if any {
            Move::On { phase: Phase::Fraction { text }, used: event.is_none() }
        } else {
            flaw(join("InvalidNumber: ", text.as_str()), event.is_none())
        },
    }
}

/// Where a point may stand.
fn fraction_move(text: String, event: Option<u8>, depth: usize) -> (step: Move)
    ensures
        step@ == (Phase::Fraction { text })@.turn(event, depth as int),
        step matches Move::On { phase, .. } ==> phase.wf(),
{
    match event {
        Some(b) if b == '.' as u8 => Move::On {
            phase: Phase::FractionStart { text: push_byte(text, b) },
            used: true,
        },
        _ => Move::On { phase: Phase::Exponent { text }, used: event.is_none() },
    }
}

/// Right after the point.
fn fraction_start_move(text: String, event: Option<u8>, depth: usize) -> (step: Move)
    ensures
        step@ == (Phase::FractionStart { text })@.turn(event, depth as int),
        step matches Move::On { phase, .. } ==> phase.wf(),
{
    match event {
        None => flaw("InvalidNumber: unexpected EOF after decimal point".to_string(), true),
        Some(b) => if digit(b) {
            Move::On { phase: Phase::FractionDigits { text }, used: false }
        } else {
            flaw(join_byte("Invalid character after decimal point: ", b), false)
        },
    }
}

/// Among the digits after the point.
fn fraction_digits_move(text: String, event: Option<u8>, depth: usize) -> (step: Move)
    ensures
        step@ == (Phase::FractionDigits { text })@.turn(event, depth as int),
        step matches Move::On { phase, .. } ==> phase.wf(),
{
    match event {
        Some(b) if digit(b) => Move::On {
            phase: Phase::FractionDigits { text: push_byte(text, b) },
            used: true,
        },
        _ => Move::On { phase: Phase::Exponent { text }, used: event.is_none() },
    }
}

/// Where an exponent may start.
fn exponent_move(text: String, event: Option<u8>, depth: usize) -> (step: Move)
    ensures
        step@ == (Phase::Exponent { text })@.turn(event, depth as int),
        step matches Move::On { phase, .. } ==> phase.wf(),
{
    match event {
        Some(b) if b == 'e' as u8 || b == 'E' as u8 => Move::On {
            phase: Phase::ExponentSign { text: push_byte(text, b) },
            used: true,
        },
        _ => number_move(text, event.is_none()),
    }
}

/// Where the sign of an exponent may stand.
fn exponent_sign_move(text: String, event: Option<u8>, depth: usize) -> (step: Move)
    ensures
        step@ == (Phase::ExponentSign { text })@.turn(event, depth as int),
        step matches Move::On { phase, .. } ==> phase.wf(),
{
    match event {
        Some(b) if b == '+' as u8 || b == '-' as u8 => Move::On {
            phase: Phase::ExponentStart { text: push_byte(text, b) },
            used: true,
        },
        _ => Move::On { phase: Phase::ExponentStart { text }, used: event.is_none() },
    }
}

/// Before the first digit of an exponent.
fn exponent_start_move(text: String, event: Option<u8>, depth: usize) -> (step: Move)
    ensures
        step@ == (Phase::ExponentStart { text })@.turn(event, depth as int),
        step matches Move::On { phase, .. } ==> phase.wf(),
{
    match event {
        None => flaw("InvalidNumber: unexpected EOF after exponent".to_string(), true),
        Some(b) => if digit(b) {
            Move::On { phase: Phase::ExponentDigits { text }, used: false }
        } else {
            flaw(join_byte("Invalid character after exponent: ", b), false)
        },
    }
}

/// Among the digits of an exponent.
fn exponent_digits_move(text: String, event: Option<u8>, depth: usize) -> (step: Move)
    ensures
        step@ == (Phase::ExponentDigits { text })@.turn(event, depth as int),
        step matches Move::On { phase, .. } ==> phase.wf(),
{
    match event {
        Some(b) if digit(b) => Move::On {
            phase: Phase::ExponentDigits { text: push_byte(text, b) },
            used: true,
        },
        _ => number_move(text, event.is_none()),
    }
}

/// At the end of a number.
fn number_move(text: String, used: bool) -> (step: Move)
    ensures
        step@ == place::number_turn(text@, used),
{
    let n: usize = text.as_str().unicode_len();
    if led_by_zero(text.as_str(), n, 0) || (n > 0 && text.as_str().get_char(0) == '-'
        && led_by_zero(text.as_str(), n, 1)) {
        flaw("Invalid number: leading zeros are not allowed".to_string(), used)
    } else {
        Move::Token { token: JsonToken::Number(text), used }
    }
}

fn led_by_zero(text: &str, n: usize, i: usize) -> (r: bool)
    requires
        n == text@.len(),
        i <= 1,
    ensures
        r == grammar::zero_led(text@, i as int),
{
    if n > i && n - i > 1 && text.get_char(i) == '0' {
        let next = text.get_char(i + 1);
        next != '.' && next != 'e' && next != 'E'
    } else {
        false
    }
}

/// Between the quotes of a string.
fn string_body_move(content: Vec<u8>, event: Option<u8>, depth: usize) -> (step: Move)
    ensures
        step@ == (Phase::StringBody { content })@.turn(event, depth as int),
        step matches Move::On { phase, .. } ==> phase.wf(),
{
    match event {
        None => flaw("Unexpected EOF while parsing string".to_string(), true),
        Some(b) => if b == '"' as u8 {
            match String::from_utf8(content) {
                Ok(text) => Move::On { phase: Phase::AfterString { text }, used: true },
                Err(error) => flaw(
                    join("Invalid UTF-8 in string: ", complaint(&error).as_str()),
                    true,
                ),
            }
        } else if b == '\\' as u8 {
            Move::On { phase: Phase::Escape { content }, used: true }
        } else {
            let mut content = content;
            content.push(b);
            Move::On { phase: Phase::StringBody { content }, used: true }
        },
    }
}

/// After the closing quote.
fn after_string_move(text: String, event: Option<u8>, depth: usize) -> (step: Move)
    ensures
        step@ == (Phase::AfterString { text })@.turn(event, depth as int),
        step matches Move::On { phase, .. } ==> phase.wf(),
{
    match event {
        None => Move::Token { token: JsonToken::String(text), used: true },
        Some(b) => if whitespace(b) {
            Move::On { phase: Phase::AfterString { text }, used: true }
        } else if b == ':' as u8 {
            Move::Token { token: JsonToken::Key(text), used: true }
        } else {
            Move::Token { token: JsonToken::String(text), used: false }
        },
    }
}

/// The byte that a one-letter escape stands for.
fn unescape(b: u8) -> (r: Option<u8>)
    ensures
        r == grammar::escaped(b),
{
    if b == '"' as u8 || b == '\\' as u8 || b == '/' as u8 {
        Some(b)
    } else if b == 'b' as u8 {
        Some(8)
    } else if b == 'f' as u8 {
        Some(12)
    } else if b == 'n' as u8 {
        Some(10)
    } else if b == 'r' as u8 {
        Some(13)
    } else if b == 't' as u8 {
        Some(9)
    } else {
        None
    }
}

/// After a backslash.
fn escape_move(content: Vec<u8>, event: Option<u8>, depth: usize) -> (step: Move)
    ensures
        step@ == (Phase::Escape { content })@.turn(event, depth as int),
        step matches Move::On { phase, .. } ==> phase.wf(),
{
    match event {
        None => cut_short(),
        Some(b) => if b == 'u' as u8 {
            let digits: Vec<u8> = Vec::new();
            assert(digits@ =~= Seq::<u8>::empty());
            Move::On { phase: Phase::CodeUnit { content, digits, high: None }, used: true }
        } else {
            match unescape(b) {
                Some(c) => {
                    let mut content = content;
                    content.push(c);
                    Move::On { phase: Phase::StringBody { content }, used: true }
                },
                None => flaw(join_byte("Invalid JSON escape sequence: \\", b), true),
            }
        },
    }
}

/// The value of a hexadecimal digit.
fn parse_hex_digit(b: u8) -> (r: Option<u32>)
    ensures
        match grammar::hex_digit(b) {
            Some(v) => r matches Some(d) && d == v && v < 16,
            None => r is None,
        },
{
    if '0' as u8 <= b && b <= '9' as u8 {
        Some((b - '0' as u8) as u32)
    } else if 'a' as u8 <= b && b <= 'f' as u8 {
        Some((b - 'a' as u8) as u32 + 10)
    } else if 'A' as u8 <= b && b <= 'F' as u8 {
        Some((b - 'A' as u8) as u32 + 10)
    } else {
        None
    }
}

/// The value of the four bytes of a unicode escape.
fn parse_code_unit(digits: &Vec<u8>) -> (r: Option<u32>)
    requires
        digits@.len() == 4,
    ensures
        match grammar::hex_value(digits@) {
            Some(v) => r matches Some(d) && d == v && v < 0x10000,
            None => r is None,
        },
{
    let mut value: u32 = 0;
    let mut i: usize = 0;
    assert(digits@.take(0) =~= Seq::<u8>::empty());
    while i < 4
        invariant
            i <= 4,
            digits@.len() == 4,
            grammar::hex_value(digits@.take(i as int)) == Some(value as int),
            i == 0 ==> value == 0,
            i == 1 ==> value < 0x10,
            i == 2 ==> value < 0x100,
            i == 3 ==> value < 0x1000,
            i == 4 ==> value < 0x10000,
        decreases 4 - i,
    {
        proof {
            assert(digits@.take(i + 1).drop_last() =~= digits@.take(i as int));
            assert(digits@.take(i + 1).last() == digits@[i as int]);
        }
        match parse_hex_digit(digits[i]) {
            Some(d) => {
                value = value * 16 + d;
            },
            None => {
                proof {
                    lemma_bad_hex_digit(digits@, i as int);
                }
                return None;
            },
        }
        i = i + 1;
    }
    assert(digits@.take(4) =~= digits@);
    Some(value)
}

/// One byte that is no hexadecimal digit leaves the whole string without a value.
proof fn lemma_bad_hex_digit(digits: Seq<u8>, k: int)
    requires
        0 <= k < digits.len(),
        grammar::hex_digit(digits[k]) is None,
    ensures
        grammar::hex_value(digits) is None,
    decreases digits.len(),
{
    if k < digits.len() - 1 {
        lemma_bad_hex_digit(digits.drop_last(), k);
    }
}

/// Appends the UTF-8 encoding of a scalar value.
fn push_scalar(content: Vec<u8>, c: u32) -> (r: Vec<u8>)
    requires
        is_scalar(c),
    ensures
        r@ == content@ + encode_scalar(c),
{
    let mut r = content;
    if c <= 0x7F {
        r.push((c & 0x7F) as u8);
    } else if c <= 0x7FF {
        r.push(0xC0 | ((c >> 6) & 0x1F) as u8);
        r.push(0x80 | (c & 0x3F) as u8);
    } else if c <= 0xFFFF {
        r.push(0xE0 | ((c >> 12) & 0x0F) as u8);
        r.push(0x80 | ((c >> 6) & 0x3F) as u8);
        r.push(0x80 | (c & 0x3F) as u8);
    } else {
        r.push(0xF0 | ((c >> 18) & 0x7) as u8);
        r.push(0x80 | ((c >> 12) & 0x3F) as u8);
        r.push(0x80 | ((c >> 6) & 0x3F) as u8);
        r.push(0x80 | (c & 0x3F) as u8);
    }
    assert(r@ =~= content@ + encode_scalar(c));
    r
}

/// Among the four bytes of a unicode escape.
fn code_unit_move(
    content: Vec<u8>,
    digits: Vec<u8>,
    high: Option<u32>,
    event: Option<u8>,
    depth: usize,
) -> (step: Move)
    requires
        (Phase::CodeUnit { content, digits, high }).wf(),
    ensures
        step@ == (Phase::CodeUnit { content, digits, high })@.turn(event, depth as int),
        step matches Move::On { phase, .. } ==> phase.wf(),
{
    match event {
        None => cut_short(),
        Some(b) => {
            let mut all = digits;
            all.push(b);
            if all.len() < 4 {
                Move::On { phase: Phase::CodeUnit { content, digits: all, high }, used: true }
            } else {
                code_unit_end_move(content, all, high)
            }
        },
    }
}

/// At the end of a unicode escape.
fn code_unit_end_move(content: Vec<u8>, digits: Vec<u8>, high: Option<u32>) -> (step: Move)
    requires
        digits@.len() == 4,
        high matches Some(unit) ==> 0xD800 <= unit <= 0xDBFF,
    ensures
        step@ == place::unit_turn(content@, digits@, high),
        step matches Move::On { phase, .. } ==> phase.wf(),
{
    let value = parse_code_unit(&digits);
    match String::from_utf8(digits) {
        Err(_) => flaw_before("Invalid UTF-8 in unicode escape sequence".to_string(), 4),
        Ok(text) => match value {
            None => flaw_before(
                join("Invalid hex value in unicode escape sequence: ", text.as_str()),
                4,
            ),
            Some(unit) => match high {
                None => if 0xD800 <= unit && unit <= 0xDBFF {
                    Move::On { phase: Phase::LowSurrogateBackslash { content, unit }, used: true }
                } else if 0xDC00 <= unit && unit <= 0xDFFF {
                    flaw_before("Unmatched low surrogate in Unicode escape sequence".to_string(), 4)
                } else {
                    Move::On {
                        phase: Phase::StringBody { content: push_scalar(content, unit) },
                        used: true,
                    }
                },
                Some(high_unit) => if 0xDC00 <= unit && unit <= 0xDFFF {
                    let c: u32 = 0x10000 + (high_unit - 0xD800) * 0x400 + (unit - 0xDC00);
                    Move::On {
                        phase: Phase::StringBody { content: push_scalar(content, c) },
                        used: true,
                    }
                } else {
                    flaw_before(
                        join(
                            "High surrogate not followed by low surrogate. Got ",
                            write_numeral(unit as usize, 16).as_str(),
                        ),
                        6,
                    )
                },
            },
        },
    }
}

/// Right after a high surrogate.
fn low_surrogate_backslash_move(
    content: Vec<u8>,
    unit: u32,
    event: Option<u8>,
    depth: usize,
) -> (step: Move)
    requires
        0xD800 <= unit <= 0xDBFF,
    ensures
        step@ == (Phase::LowSurrogateBackslash { content, unit })@.turn(event, depth as int),
        step matches Move::On { phase, .. } ==> phase.wf(),
{
    match event {
        None => cut_short(),
        Some(b) => if b == '\\' as u8 {
            Move::On { phase: Phase::LowSurrogateLetter { content, unit }, used: true }
        } else {
            flaw("Unmatched high surrogate in Unicode escape sequence".to_string(), false)
        },
    }
}

/// After a high surrogate and a backslash.
fn low_surrogate_letter_move(
    content: Vec<u8>,
    unit: u32,
    event: Option<u8>,
    depth: usize,
) -> (step: Move)
    requires
        0xD800 <= unit <= 0xDBFF,
    ensures
        step@ == (Phase::LowSurrogateLetter { content, unit })@.turn(event, depth as int),
        step matches Move::On { phase, .. } ==> phase.wf(),
{
    match event {
        None => cut_short(),
        Some(b) => if b == 'u' as u8 {
            let digits: Vec<u8> = Vec::new();
            assert(digits@ =~= Seq::<u8>::empty());
            Move::On { phase: Phase::CodeUnit { content, digits, high: Some(unit) }, used: true }
        } else {
            flaw("Unmatched high surrogate in Unicode escape sequence".to_string(), false)
        },
    }
}

impl Phase {
    /// Takes one event, inside `depth` open brackets.
    pub fn advance(self, event: Option<u8>, depth: usize) -> (step: Move)
        requires
            self.wf(),
        ensures
            step@ == self@.turn(event, depth as int),
            step matches Move::On { phase, .. } ==> phase.wf(),
    {
        match self {
            Phase::Start => start_move(event, depth),
            Phase::Literal { word, matched } => literal_move(word, matched, event, depth),
            Phase::IntegerPart { text, any } => integer_part_move(text, any, event, depth),
            Phase::Fraction { text } => fraction_move(text, event, depth),
            Phase::FractionStart { text } => fraction_start_move(text, event, depth),
            Phase::FractionDigits { text } => fraction_digits_move(text, event, depth),
            Phase::Exponent { text } => exponent_move(text, event, depth),
            Phase::ExponentSign { text } => exponent_sign_move(text, event, depth),
            Phase::ExponentStart { text } => exponent_start_move(text, event, depth),
            Phase::ExponentDigits { text } => exponent_digits_move(text, event, depth),
            Phase::StringBody { content } => string_body_move(content, event, depth),
            Phase::Escape { content } => escape_move(content, event, depth),
            Phase::CodeUnit { content, digits, high } => code_unit_move(
                content,
                digits,
                high,
                event,
                depth,
            ),
            Phase::LowSurrogateBackslash { content, unit } => low_surrogate_backslash_move(
                content,
                unit,
                event,
                depth,
            ),
            Phase::LowSurrogateLetter { content, unit } => low_surrogate_letter_move(
                content,
                unit,
                event,
                depth,
            ),
            Phase::AfterString { text } => after_string_move(text, event, depth),
        }
    }
}

impl Phase {
    /// Takes one event to its end: the machine stops, or the event is used up.
    pub fn take(self, event: Option<u8>, depth: usize) -> (step: Move)
        requires
            self.wf(),
        ensures
            step@ == self@.settle(event, depth as int),
            step matches Move::On { phase, .. } ==> phase.wf(),
        decreases self@.rank(),
    {
        proof {
            self@.lemma_rank(event, depth as int);
        }
        match self.advance(event, depth) {
            Move::On { phase, used: false } => phase.take(event, depth),
            step => step,
        }
    }

    /// Nothing read leads to the start.
    pub proof fn lemma_start(depth: int)
        ensures
            Phase::Start.reached(Seq::empty(), depth),
    {
    }

    /// At the end of the input, every phase asks for more.
    pub proof fn lemma_exhausted(self, s: Seq<Option<u8>>, depth: int)
        requires
            self.wf(),
            self.reached(s, depth),
        ensures
            grammar::lex(s, depth) is More,
    {
        assert(s + Seq::<Option<u8>>::empty() =~= s);
        assert(grammar::lex(s + Seq::<Option<u8>>::empty(), depth) is More) by {
            self@.lemma_turn(s, s.len() as int, depth);
        }
    }

    /// A step on the event at index `n` tells what the input amounts to, or carries
    /// the reading on.
    pub proof fn lemma_step(self, s: Seq<Option<u8>>, n: int, depth: int, step: Move)
        requires
            0 <= n < s.len(),
            self.wf(),
            self.reached(s.take(n), depth),
            step@ == self@.settle(s[n], depth),
        ensures
            match step {
                Move::On { phase, used } => used && phase.reached(s.take(n + 1), depth),
                Move::End => grammar::lex(s, depth) == (Lexed::End { len: n + 1 }),
                Move::Token { token, used } => {
                    &&& grammar::lex(s, depth) == (Lexed::Token {
                        token: token@,
                        len: n + grammar::events(used),
                    })
                    &&& place::punctuation(token@) ==> used && s[n] is Some
                    &&& (token is EndObject || token is EndArray) ==> depth > 0
                },
                Move::Flaw { flaw, used } => grammar::lex(s, depth) == (Lexed::Flaw {
                    flaw: flaw@,
                    len: n + grammar::events(used),
                }),
            },
    {
        assert(s =~= s.take(n) + s.skip(n));
        assert(grammar::lex(s, depth) == self@.outcome(s, n, depth));
        self@.lemma_settle(s, n, depth);
        match step {
            Move::On { phase, .. } => {
                self.lemma_step_on(s, n, depth, phase);
            },
            Move::Token { .. } => {
                self@.lemma_punctuation(s, n, depth);
            },
            _ => {},
        }
    }

    proof fn lemma_step_on(self, s: Seq<Option<u8>>, n: int, depth: int, next: Phase)
        requires
            0 <= n < s.len(),
            self.wf(),
            self.reached(s.take(n), depth),
            self@.settle(s[n], depth) == (Turn::On { place: next@, used: true }),
        ensures
            next.reached(s.take(n + 1), depth),
    {
        let seen = s.take(n);
        let event = s[n];
        assert forall|rest: Seq<Option<u8>>|
            #![trigger grammar::lex(s.take(n + 1) + rest, depth)]
            grammar::lex(s.take(n + 1) + rest, depth) == next@.outcome(
                s.take(n + 1) + rest,
                n + 1,
                depth,
            ) by {
            let all = seen + (seq![event] + rest);
            assert(s.take(n + 1) + rest =~= all);
            assert(all[n] == event);
            assert(grammar::lex(all, depth) == self@.outcome(all, n, depth));
            self@.lemma_settle(all, n, depth);
        }
    }
}

} // verus!
