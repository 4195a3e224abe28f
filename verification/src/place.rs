//! Places in a token, and the one-event steps between them: what inductions on
//! the grammar go by.
use vstd::prelude::*;
use vstd::utf8::*;

use crate::grammar;
use crate::grammar::{FlawView, Lexed, Word};
use crate::text;
use crate::token::TokenView;

verus! {

/// A grammar function together with what it is told of the input before it.
pub enum Place {
    Start,
    Literal { word: Word, matched: int },
    IntegerPart { text: Seq<char>, any: bool },
    Fraction { text: Seq<char> },
    FractionStart { text: Seq<char> },
    FractionDigits { text: Seq<char> },
    Exponent { text: Seq<char> },
    ExponentSign { text: Seq<char> },
    ExponentStart { text: Seq<char> },
    ExponentDigits { text: Seq<char> },
    StringBody { content: Seq<u8> },
    Escape { content: Seq<u8> },
    CodeUnit { content: Seq<u8>, digits: Seq<u8>, high: Option<u32> },
    LowSurrogateBackslash { content: Seq<u8>, unit: u32 },
    LowSurrogateLetter { content: Seq<u8>, unit: u32 },
    AfterString { text: Seq<char> },
}

/// What one event leads to. `used` tells whether the event is used up by it.
pub enum Turn {
    On { place: Place, used: bool },
    End,
    Token { token: TokenView, used: bool },
    Flaw { flaw: FlawView, used: bool },
}

impl Turn {
    /// What the input amounts to, if this turn is taken at index `i`.
    pub open spec fn outcome(self, s: Seq<Option<u8>>, i: int, depth: int) -> Lexed {
        match self {
            Turn::On { place, used } => place.outcome(s, i + grammar::events(used), depth),
            Turn::End => Lexed::End { len: i + 1 },
            Turn::Token { token, used } => Lexed::Token { token, len: i + grammar::events(used) },
            Turn::Flaw { flaw, used } => Lexed::Flaw { flaw, len: i + grammar::events(used) },
        }
    }
}

/// A flaw in the JSON text at the place reached.
pub open spec fn wrong(error: Seq<char>, used: bool) -> Turn {
    Turn::Flaw { flaw: FlawView::Json { error, back: 0 }, used }
}

/// The stream ended where a further byte is required.
pub open spec fn cut() -> Turn {
    wrong("Unexpected EOF while requesting to fill buffer"@, true)
}

/// The turn at the end of a number.
pub open spec fn number_turn(text: Seq<char>, used: bool) -> Turn {
    match grammar::number_end(text, 0) {
        Lexed::Token { token, .. } => Turn::Token { token, used },
        _ => wrong("Invalid number: leading zeros are not allowed"@, used),
    }
}

/// The turn on the first byte of a token.
pub open spec fn first_turn(b: u8, depth: int) -> Turn {
    if b == '{' as u8 {
        Turn::Token { token: TokenView::StartObject, used: true }
    } else if b == '}' as u8 && depth > 0 {
        Turn::Token { token: TokenView::EndObject, used: true }
    } else if b == '[' as u8 {
        Turn::Token { token: TokenView::StartArray, used: true }
    } else if b == ']' as u8 && depth > 0 {
        Turn::Token { token: TokenView::EndArray, used: true }
    } else if b == ',' as u8 {
        Turn::Token { token: TokenView::EndObjectOrListItem, used: true }
    } else if b == '"' as u8 {
        Turn::On { place: Place::StringBody { content: Seq::empty() }, used: true }
    } else if b == 'n' as u8 {
        Turn::On { place: Place::Literal { word: Word::Null, matched: 1 }, used: true }
    } else if b == 't' as u8 {
        Turn::On { place: Place::Literal { word: Word::True, matched: 1 }, used: true }
    } else if b == 'f' as u8 {
        Turn::On { place: Place::Literal { word: Word::False, matched: 1 }, used: true }
    } else if b == '-' as u8 {
        Turn::On { place: Place::IntegerPart { text: seq!['-'], any: false }, used: true }
    } else if grammar::is_digit(b) {
        Turn::On { place: Place::IntegerPart { text: Seq::empty(), any: false }, used: false }
    } else {
        wrong("Unexpected JSON character: "@.push(b as char), false)
    }
}

/// The turn after the fourth byte of a unicode escape.
pub open spec fn unit_turn(content: Seq<u8>, digits: Seq<u8>, high: Option<u32>) -> Turn {
    if !valid_utf8(digits) {
        Turn::Flaw {
            flaw: FlawView::Json { error: "Invalid UTF-8 in unicode escape sequence"@, back: 4 },
            used: true,
        }
    } else {
        match grammar::hex_value(digits) {
            None => Turn::Flaw {
                flaw: FlawView::Json {
                    error: "Invalid hex value in unicode escape sequence: "@ + decode_utf8(digits),
                    back: 4,
                },
                used: true,
            },
            Some(unit) => match high {
                None => if 0xD800 <= unit <= 0xDBFF {
                    Turn::On {
                        place: Place::LowSurrogateBackslash { content, unit: unit as u32 },
                        used: true,
                    }
                } else if 0xDC00 <= unit <= 0xDFFF {
                    Turn::Flaw {
                        flaw: FlawView::Json {
                            error: "Unmatched low surrogate in Unicode escape sequence"@,
                            back: 4,
                        },
                        used: true,
                    }
                } else {
                    Turn::On {
                        place: Place::StringBody { content: content + encode_scalar(unit as u32) },
                        used: true,
                    }
                },
                Some(high_unit) => if 0xDC00 <= unit <= 0xDFFF {
                    Turn::On {
                        place: Place::StringBody {
                            content: content + encode_scalar(
                                grammar::surrogate_pair(high_unit as int, unit) as u32,
                            ),
                        },
                        used: true,
                    }
                } else {
                    Turn::Flaw {
                        flaw: FlawView::Json {
                            error: "High surrogate not followed by low surrogate. Got "@
                                + text::numeral(unit as nat, 16),
                            back: 6,
                        },
                        used: true,
                    }
                },
            },
        }
    }
}

/// The same finding, `n` events further on.
pub open spec fn shifted(lexed: Lexed, n: int) -> Lexed {
    match lexed {
        Lexed::More => Lexed::More,
        Lexed::End { len } => Lexed::End { len: len + n },
        Lexed::Token { token, len } => Lexed::Token { token, len: len + n },
        Lexed::Flaw { flaw, len } => Lexed::Flaw { flaw, len: len + n },
    }
}

/// A token that is one byte of punctuation.
pub open spec fn punctuation(token: TokenView) -> bool {
    match token {
        TokenView::StartObject
        | TokenView::EndObject
        | TokenView::StartArray
        | TokenView::EndArray
        | TokenView::EndObjectOrListItem => true,
        _ => false,
    }
}

impl Place {
    /// What the input from index `i` on amounts to at this place.
    pub open spec fn outcome(self, s: Seq<Option<u8>>, i: int, depth: int) -> Lexed {
        match self {
            Place::Start => grammar::token_start(s, i, depth),
            Place::Literal { word, matched } => grammar::literal(s, i, word, matched),
            Place::IntegerPart { text, any } => grammar::integer_part(s, i, text, any),
            Place::Fraction { text } => grammar::fraction(s, i, text),
            Place::FractionStart { text } => grammar::fraction_start(s, i, text),
            Place::FractionDigits { text } => grammar::fraction_digits(s, i, text),
            Place::Exponent { text } => grammar::exponent(s, i, text),
            Place::ExponentSign { text } => grammar::exponent_sign(s, i, text),
            Place::ExponentStart { text } => grammar::exponent_start(s, i, text),
            Place::ExponentDigits { text } => grammar::exponent_digits(s, i, text),
            Place::StringBody { content } => grammar::string_body(s, i, content),
            Place::Escape { content } => grammar::escape(s, i, content),
            Place::CodeUnit { content, digits, high } => grammar::code_unit(
                s,
                i,
                content,
                digits,
                high,
            ),
            Place::LowSurrogateBackslash { content, unit } => grammar::low_surrogate_backslash(
                s,
                i,
                content,
                unit,
            ),
            Place::LowSurrogateLetter { content, unit } => grammar::low_surrogate_letter(
                s,
                i,
                content,
                unit,
            ),
            Place::AfterString { text } => grammar::after_string(s, i, text),
        }
    }

    /// A literal is not complete.
    pub open spec fn wf(self) -> bool {
        self matches Place::Literal { word, matched } ==> 0 <= matched < word.letters().len()
    }

    /// How many turns at most follow without using an event up.
    pub open spec fn rank(self) -> int {
        match self {
            Place::Start => 5,
            Place::IntegerPart { .. } => 4,
            Place::Fraction { .. } => 3,
            Place::FractionStart { .. } => 3,
            Place::FractionDigits { .. } => 2,
            Place::ExponentSign { .. } => 3,
            Place::ExponentStart { .. } => 2,
            Place::Exponent { .. } => 1,
            Place::ExponentDigits { .. } => 1,
            _ => 0,
        }
    }

    /// The turn that `event` takes here.
    pub open spec fn turn(self, event: Option<u8>, depth: int) -> Turn {
        match self {
            Place::Start => match event {
                None => Turn::End,
                Some(b) => if grammar::is_whitespace(b) {
                    Turn::On { place: self, used: true }
                } else {
                    first_turn(b, depth)
                },
            },
            Place::Literal { word, matched } => match event {
                None => cut(),
                Some(b) => if b != word.letters()[matched] {
                    Turn::Flaw {
                        flaw: FlawView::Unexpected {
                            expected: word.spelling(),
                            found: seq![b as char],
                        },
                        used: false,
                    }
                } else if matched + 1 >= word.letters().len() {
                    Turn::Token { token: word.token(), used: true }
                } else {
                    Turn::On { place: Place::Literal { word, matched: matched + 1 }, used: true }
                },
            },
            Place::IntegerPart { text, any } => match event {
                Some(b) if grammar::is_digit(b) => Turn::On {
                    place: Place::IntegerPart { text: text.push(b as char), any: true },
                    used: true,
                },
                _ => if any {
                    Turn::On { place: Place::Fraction { text }, used: event is None }
                } else {
                    wrong("InvalidNumber: "@ + text, event is None)
                },
            },
            Place::Fraction { text } => if event == Some('.' as u8) {
                Turn::On { place: Place::FractionStart { text: text.push('.') }, used: true }
            } else {
                Turn::On { place: Place::Exponent { text }, used: event is None }
            },
            Place::FractionStart { text } => match event {
                None => wrong("InvalidNumber: unexpected EOF after decimal point"@, true),
                Some(b) => if grammar::is_digit(b) {
                    Turn::On { place: Place::FractionDigits { text }, used: false }
                } else {
                    wrong("Invalid character after decimal point: "@.push(b as char), false)
                },
            },
            Place::FractionDigits { text } => match event {
                Some(b) if grammar::is_digit(b) => Turn::On {
                    place: Place::FractionDigits { text: text.push(b as char) },
                    used: true,
                },
                _ => Turn::On { place: Place::Exponent { text }, used: event is None },
            },
            Place::Exponent { text } => if event == Some('e' as u8) {
                Turn::On { place: Place::ExponentSign { text: text.push('e') }, used: true }
            } else if event == Some('E' as u8) {
                Turn::On { place: Place::ExponentSign { text: text.push('E') }, used: true }
            } else {
                number_turn(text, event is None)
            },
            Place::ExponentSign { text } => if event == Some('+' as u8) {
                Turn::On { place: Place::ExponentStart { text: text.push('+') }, used: true }
            } else if event == Some('-' as u8) {
                Turn::On { place: Place::ExponentStart { text: text.push('-') }, used: true }
            } else {
                Turn::On { place: Place::ExponentStart { text }, used: event is None }
            },
            Place::ExponentStart { text } => match event {
                None => wrong("InvalidNumber: unexpected EOF after exponent"@, true),
                Some(b) => if grammar::is_digit(b) {
                    Turn::On { place: Place::ExponentDigits { text }, used: false }
                } else {
                    wrong("Invalid character after exponent: "@.push(b as char), false)
                },
            },
            Place::ExponentDigits { text } => match event {
                Some(b) if grammar::is_digit(b) => Turn::On {
                    place: Place::ExponentDigits { text: text.push(b as char) },
                    used: true,
                },
                _ => number_turn(text, event is None),
            },
            Place::StringBody { content } => match event {
                None => wrong("Unexpected EOF while parsing string"@, true),
                Some(b) => if b == '"' as u8 {
                    if valid_utf8(content) {
                        Turn::On {
                            place: Place::AfterString { text: decode_utf8(content) },
                            used: true,
                        }
                    } else {
                        wrong(
                            "Invalid UTF-8 in string: "@ + text::utf8_complaint(
                                text::utf8_error(content),
                            ),
                            true,
                        )
                    }
                } else if b == '\\' as u8 {
                    Turn::On { place: Place::Escape { content }, used: true }
                } else {
                    Turn::On { place: Place::StringBody { content: content.push(b) }, used: true }
                },
            },
            Place::Escape { content } => match event {
                None => cut(),
                Some(b) => if b == 'u' as u8 {
                    Turn::On {
                        place: Place::CodeUnit { content, digits: Seq::empty(), high: None },
                        used: true,
                    }
                } else {
                    match grammar::escaped(b) {
                        Some(c) => Turn::On {
                            place: Place::StringBody { content: content.push(c) },
                            used: true,
                        },
                        None => wrong(
                            "Invalid JSON escape sequence: \\"@.push(b as char),
                            true,
                        ),
                    }
                },
            },
            Place::CodeUnit { content, digits, high } => match event {
                None => cut(),
                Some(b) => if digits.len() < 3 {
                    Turn::On {
                        place: Place::CodeUnit { content, digits: digits.push(b), high },
                        used: true,
                    }
                } else {
                    unit_turn(content, digits.push(b), high)
                },
            },
            Place::LowSurrogateBackslash { content, unit } => match event {
                None => cut(),
                Some(b) => if b == '\\' as u8 {
                    Turn::On { place: Place::LowSurrogateLetter { content, unit }, used: true }
                } else {
                    wrong("Unmatched high surrogate in Unicode escape sequence"@, false)
                },
            },
            Place::LowSurrogateLetter { content, unit } => match event {
                None => cut(),
                Some(b) => if b == 'u' as u8 {
                    Turn::On {
                        place: Place::CodeUnit {
                            content,
                            digits: Seq::empty(),
                            high: Some(unit),
                        },
                        used: true,
                    }
                } else {
                    wrong("Unmatched high surrogate in Unicode escape sequence"@, false)
                },
            },
            Place::AfterString { text } => match event {
                None => Turn::Token { token: TokenView::String(text), used: true },
                Some(b) => if grammar::is_whitespace(b) {
                    Turn::On { place: self, used: true }
                } else if b == ':' as u8 {
                    Turn::Token { token: TokenView::Key(text), used: true }
                } else {
                    Turn::Token { token: TokenView::String(text), used: false }
                },
            },
        }
    }

    /// Where an event leads in the end: the turns go on until one of them uses the event
    /// up or stops.
    pub open spec fn settle(self, event: Option<u8>, depth: int) -> Turn
        decreases self.rank(),
        when self.wf()
    {
        proof {
            self.lemma_rank(event, depth);
        }
        match self.turn(event, depth) {
            Turn::On { place, used: false } => place.settle(event, depth),
            turn => turn,
        }
    }

    /// A turn leads to a place that is in order, and only so many turns come without
    /// using the event up.
    pub proof fn lemma_rank(self, event: Option<u8>, depth: int)
        requires
            self.wf(),
        ensures
            0 <= self.rank(),
            self.turn(event, depth) matches Turn::On { place, used } ==> place.wf() && (used
                || place.rank() < self.rank()),
    {
    }

    /// The grammar goes turn by turn.
    pub proof fn lemma_turn(self, s: Seq<Option<u8>>, i: int, depth: int)
        requires
            self.wf(),
            0 <= i,
        ensures
            i >= s.len() ==> self.outcome(s, i, depth) is More,
            i < s.len() ==> self.outcome(s, i, depth) == self.turn(s[i], depth).outcome(
                s,
                i,
                depth,
            ),
            i < s.len() ==> (self.turn(s[i], depth) matches Turn::On { place, used } ==> place.wf()
                && (used || place.rank() < self.rank())),
    {
        reveal_with_fuel(grammar::literal, 2);
        if i < s.len() {
            self.lemma_rank(s[i], depth);
        }
        if let Place::CodeUnit { content, digits, high } = self {
            if i < s.len() && s[i] is Some && digits.len() >= 3 {
                let all = digits.push(s[i]->0);
                assert(self.outcome(s, i, depth) == grammar::code_unit_end(
                    s,
                    i + 1,
                    content,
                    all,
                    high,
                ));
            }
        }
    }

    /// Whatever is found lies inside the input, and a token that starts here is at
    /// least one event long.
    pub proof fn lemma_bounds(self, s: Seq<Option<u8>>, i: int, depth: int)
        requires
            self.wf(),
            0 <= i <= s.len(),
        ensures
            match self.outcome(s, i, depth) {
                Lexed::More => true,
                Lexed::End { len } => i < len <= s.len(),
                Lexed::Token { token, len } => {
                    &&& i <= len <= s.len()
                    &&& self is Start ==> i < len
                    &&& (self matches Place::IntegerPart { any, .. } && !any) ==> i < len
                },
                Lexed::Flaw { flaw, len } => i <= len <= s.len(),
            },
        decreases s.len() - i, self.rank(),
    {
        self.lemma_turn(s, i, depth);
        if i < s.len() {
            if let Turn::On { place, used } = self.turn(s[i], depth) {
                place.lemma_bounds(s, i + grammar::events(used), depth);
            }
        }
    }

    /// A bracket or a comma takes nothing but whitespace and its own byte, and a
    /// closing bracket closes an open one.
    pub proof fn lemma_punctuation(self, s: Seq<Option<u8>>, i: int, depth: int)
        requires
            self.wf(),
            0 <= i,
        ensures
            self.outcome(s, i, depth) matches Lexed::Token { token, len } ==> punctuation(
                token,
            ) ==> {
                &&& self is Start
                &&& i < len <= s.len()
                &&& forall|k: int| i <= k < len ==> (#[trigger] s[k]) is Some
                &&& (token is EndObject || token is EndArray) ==> depth > 0
            },
        decreases s.len() - i, self.rank(),
    {
        self.lemma_turn(s, i, depth);
        if i < s.len() {
            if let Turn::On { place, used } = self.turn(s[i], depth) {
                place.lemma_punctuation(s, i + grammar::events(used), depth);
            }
        }
    }

    /// What has been found does not change with what comes later.
    pub proof fn lemma_stable(self, a: Seq<Option<u8>>, b: Seq<Option<u8>>, i: int, depth: int)
        requires
            self.wf(),
            0 <= i <= a.len(),
        ensures
            self.outcome(a, i, depth) !is More ==> self.outcome(a + b, i, depth) == self.outcome(
                a,
                i,
                depth,
            ),
        decreases a.len() - i, self.rank(),
    {
        self.lemma_turn(a, i, depth);
        self.lemma_turn(a + b, i, depth);
        if i < a.len() {
            assert((a + b)[i] == a[i]);
            if let Turn::On { place, used } = self.turn(a[i], depth) {
                place.lemma_stable(a, b, i + grammar::events(used), depth);
            }
        }
    }

    /// Where input is missing, whatever is found later reaches beyond the input.
    pub proof fn lemma_partial(self, a: Seq<Option<u8>>, b: Seq<Option<u8>>, i: int, depth: int)
        requires
            self.wf(),
            0 <= i <= a.len(),
            self.outcome(a, i, depth) is More,
        ensures
            match self.outcome(a + b, i, depth) {
                Lexed::More => true,
                Lexed::End { len } => a.len() <= len,
                Lexed::Token { len, .. } => a.len() <= len,
                Lexed::Flaw { len, .. } => a.len() <= len,
            },
        decreases a.len() - i, self.rank(),
    {
        self.lemma_turn(a, i, depth);
        self.lemma_turn(a + b, i, depth);
        if i < a.len() {
            assert((a + b)[i] == a[i]);
            if let Turn::On { place, used } = self.turn(a[i], depth) {
                place.lemma_partial(a, b, i + grammar::events(used), depth);
            }
        } else {
            self.lemma_bounds(a + b, i, depth);
        }
    }

    /// What stands before the place does not matter.
    pub proof fn lemma_shift(self, a: Seq<Option<u8>>, s: Seq<Option<u8>>, i: int, depth: int)
        requires
            self.wf(),
            0 <= i <= s.len(),
        ensures
            self.outcome(a + s, a.len() + i, depth) == shifted(
                self.outcome(s, i, depth),
                a.len() as int,
            ),
        decreases s.len() - i, self.rank(),
    {
        self.lemma_turn(s, i, depth);
        self.lemma_turn(a + s, a.len() + i, depth);
        if i < s.len() {
            assert((a + s)[a.len() + i] == s[i]);
            if let Turn::On { place, used } = self.turn(s[i], depth) {
                place.lemma_shift(a, s, i + grammar::events(used), depth);
            }
        }
    }

    /// The grammar goes event by event.
    pub proof fn lemma_settle(self, s: Seq<Option<u8>>, i: int, depth: int)
        requires
            self.wf(),
            0 <= i < s.len(),
        ensures
            self.outcome(s, i, depth) == self.settle(s[i], depth).outcome(s, i, depth),
            self.settle(s[i], depth) matches Turn::On { place, used } ==> place.wf() && used,
        decreases self.rank(),
    {
        self.lemma_turn(s, i, depth);
        self.lemma_rank(s[i], depth);
        if let Turn::On { place, used: false } = self.turn(s[i], depth) {
            place.lemma_settle(s, i, depth);
        }
    }

    /// A report of the end of the stream is used up by the token that waited for it.
    pub proof fn lemma_end_used(self, a: Seq<Option<u8>>, i: int, depth: int)
        requires
            self.wf(),
            0 <= i <= a.len(),
            self.outcome(a, i, depth) is More,
        ensures
            match self.outcome(a.push(None), i, depth) {
                Lexed::More => true,
                Lexed::End { len } => len == a.len() + 1,
                Lexed::Token { len, .. } => len == a.len() + 1,
                Lexed::Flaw { len, .. } => len == a.len() + 1,
            },
        decreases a.len() - i, self.rank(),
    {
        let b = a.push(None);
        self.lemma_turn(a, i, depth);
        self.lemma_turn(b, i, depth);
        if i < a.len() {
            assert(b[i] == a[i]);
            if let Turn::On { place, used } = self.turn(a[i], depth) {
                place.lemma_end_used(a, i + grammar::events(used), depth);
            }
        } else {
            assert(b[i] is None);
            if let Turn::On { place, used } = self.turn(None, depth) {
                place.lemma_turn(b, i + 1, depth);
            }
        }
    }

    /// How many reports of the end of the stream settle the token from here on.
    pub open spec fn ends_needed(self) -> int {
        match self {
            Place::IntegerPart { any, .. } => if any {
                3
            } else {
                1
            },
            Place::Fraction { .. } => 2,
            Place::FractionDigits { .. } => 2,
            Place::ExponentSign { .. } => 2,
            _ => 1,
        }
    }

    /// Three reports of the end of the stream settle any token.
    pub proof fn lemma_ends_settle(self, s: Seq<Option<u8>>, m: int, i: int, depth: int)
        requires
            self.wf(),
            0 <= i <= s.len(),
            0 <= m <= s.len(),
            forall|k: int| m <= k < s.len() ==> (#[trigger] s[k]) is None,
            if i <= m {
                m + 3 <= s.len()
            } else {
                i + self.ends_needed() <= s.len()
            },
        ensures
            self.outcome(s, i, depth) !is More,
        decreases s.len() - i, self.rank(),
    {
        self.lemma_turn(s, i, depth);
        if let Turn::On { place, used } = self.turn(s[i], depth) {
            if i >= m {
                assert(s[i] is None);
            }
            place.lemma_ends_settle(s, m, i + grammar::events(used), depth);
        }
    }

    /// Only at the start is the end of the stream just that.
    pub proof fn lemma_no_end(self, s: Seq<Option<u8>>, i: int, depth: int)
        requires
            self.wf(),
            0 <= i,
            !(self is Start),
        ensures
            !(self.outcome(s, i, depth) is End),
        decreases s.len() - i, self.rank(),
    {
        self.lemma_turn(s, i, depth);
        if i < s.len() {
            if let Turn::On { place, used } = self.turn(s[i], depth) {
                place.lemma_no_end(s, i + grammar::events(used), depth);
            }
        }
    }
}

} // verus!
