//! Laws on strings: whichever way JSON lets a character be spelled, that character
//! is read.
use vstd::prelude::*;
use vstd::utf8::*;

use crate::grammar;
use crate::grammar::{FlawView, Lexed};
use crate::model;
use crate::text;
use crate::token::TokenView;
use crate::token_laws;

verus! {

/// The character stands for itself.
pub open spec fn spells_plainly(bytes: Seq<u8>, c: char) -> bool {
    bytes == encode_scalar(c as u32) && c != '"' && c != '\\'
}

/// What a backslash and this letter stand for.
pub open spec fn short_escape(letter: char, c: char) -> bool {
    ||| letter == '"' && c == '"'
    ||| letter == '\\' && c == '\\'
    ||| letter == '/' && c == '/'
    ||| letter == 'b' && c as u32 == 0x08
    ||| letter == 'f' && c as u32 == 0x0C
    ||| letter == 'n' && c as u32 == 0x0A
    ||| letter == 'r' && c as u32 == 0x0D
    ||| letter == 't' && c as u32 == 0x09
}

/// A backslash and one letter stand for the character.
pub open spec fn spells_shortly(bytes: Seq<u8>, c: char) -> bool {
    &&& bytes.len() == 2
    &&& bytes[0] == '\\' as u8
    &&& short_escape(bytes[1] as char, c)
}

/// The byte is the hexadecimal digit of the value `d`, a letter being small or capital.
pub open spec fn is_hex_digit(b: u8, d: int) -> bool {
    &&& 0 <= d < 16
    &&& b == "0123456789abcdef"@[d] as u8 || b == "0123456789ABCDEF"@[d] as u8
}

/// The four bytes are the hexadecimal numeral of the value.
pub open spec fn spells_hex(digits: Seq<u8>, value: int) -> bool {
    &&& digits.len() == 4
    &&& 0 <= value < 0x10000
    &&& is_hex_digit(digits[0], value / 0x1000)
    &&& is_hex_digit(digits[1], value / 0x100 % 0x10)
    &&& is_hex_digit(digits[2], value / 0x10 % 0x10)
    &&& is_hex_digit(digits[3], value % 0x10)
}

/// `\u` and four hexadecimal digits stand for a code unit.
pub open spec fn spells_unit(bytes: Seq<u8>, unit: int) -> bool {
    &&& bytes.len() == 6
    &&& bytes[0] == '\\' as u8
    &&& bytes[1] == 'u' as u8
    &&& spells_hex(bytes.skip(2), unit)
}

/// A surrogate pair of code units stands for the character: the high one for the upper ten
/// bits of what it is beyond the first 65536 code points, the low one for the lower ten.
pub open spec fn spells_as_pair(bytes: Seq<u8>, c: char) -> bool {
    &&& bytes.len() == 12
    &&& c as int >= 0x10000
    &&& spells_unit(bytes.take(6), 0xD800 + (c as int - 0x10000) / 0x400)
    &&& spells_unit(bytes.skip(6), 0xDC00 + (c as int - 0x10000) % 0x400)
}

/// The bytes are a JSON spelling of the character inside a string.
pub open spec fn spells(bytes: Seq<u8>, c: char) -> bool {
    ||| spells_plainly(bytes, c)
    ||| spells_shortly(bytes, c)
    ||| spells_unit(bytes, c as int)
    ||| spells_as_pair(bytes, c)
}

/// Each piece is a spelling of the character at the same index.
pub open spec fn spells_text(pieces: Seq<Seq<u8>>, text: Seq<char>) -> bool {
    &&& pieces.len() == text.len()
    &&& forall|k: int| 0 <= k < text.len() ==> spells(#[trigger] pieces[k], text[k])
}

/// The pieces one after the other.
pub open spec fn concatenated(pieces: Seq<Seq<u8>>) -> Seq<u8>
    decreases pieces.len(),
{
    if pieces.len() == 0 {
        Seq::empty()
    } else {
        pieces[0] + concatenated(pieces.drop_first())
    }
}

/// A string in quotes.
pub open spec fn in_quotes(pieces: Seq<Seq<u8>>) -> Seq<u8> {
    seq!['"' as u8] + concatenated(pieces) + seq!['"' as u8]
}

/// The bytes stand in the input from index `i` on.
pub open spec fn stands_at(s: Seq<Option<u8>>, i: int, bytes: Seq<u8>) -> bool {
    &&& 0 <= i <= i + bytes.len() <= s.len()
    &&& forall|k: int| 0 <= k < bytes.len() ==> s[i + k] == Some(#[trigger] bytes[k])
}

proof fn lemma_stands_parts(s: Seq<Option<u8>>, i: int, a: Seq<u8>, b: Seq<u8>)
    requires
        stands_at(s, i, a + b),
    ensures
        stands_at(s, i, a),
        stands_at(s, i + a.len(), b),
{
    assert forall|k: int| 0 <= k < a.len() implies s[i + k] == Some(#[trigger] a[k]) by {
        assert((a + b)[k] == a[k]);
    }
    assert forall|k: int| 0 <= k < b.len() implies s[i + a.len() + k] == Some(#[trigger] b[k]) by {
        assert((a + b)[a.len() + k] == b[k]);
    }
}

/// Bytes that are neither a quote nor a backslash are content.
proof fn lemma_plain_run(s: Seq<Option<u8>>, i: int, content: Seq<u8>, run: Seq<u8>)
    requires
        stands_at(s, i, run),
        forall|k: int|
            0 <= k < run.len() ==> #[trigger] run[k] != '"' as u8 && run[k] != '\\' as u8,
    ensures
        grammar::string_body(s, i, content) == grammar::string_body(
            s,
            i + run.len(),
            content + run,
        ),
    decreases run.len(),
{
    if run.len() == 0 {
        assert(content + run =~= content);
    } else {
        let rest = run.drop_first();
        assert(s[i + 0] == Some(run[0]));
        assert forall|k: int| 0 <= k < rest.len() implies {
            &&& s[i + 1 + k] == Some(#[trigger] rest[k])
            &&& rest[k] != '"' as u8
            &&& rest[k] != '\\' as u8
        } by {
            assert(rest[k] == run[k + 1]);
        }
        lemma_plain_run(s, i + 1, content.push(run[0]), rest);
        assert(content.push(run[0]) + rest =~= content + run);
    }
}

/// The bytes of an encoded character are ASCII only if the character is.
proof fn lemma_encoded_bytes(c: u32)
    requires
        is_scalar(c),
    ensures
        c < 0x80 ==> encode_scalar(c) == seq![c as u8],
        c >= 0x80 ==> forall|k: int|
            0 <= k < encode_scalar(c).len() ==> #[trigger] encode_scalar(c)[k] >= 0x80,
{
    assert(c < 0x80 ==> (c & 0x7F) as u8 == c as u8) by (bit_vector);
    assert(0xC0 | ((c >> 6) & 0x1F) as u8 >= 0x80u8) by (bit_vector);
    assert(0xE0 | ((c >> 12) & 0x0F) as u8 >= 0x80u8) by (bit_vector);
    assert(0xF0 | ((c >> 18) & 0x7) as u8 >= 0x80u8) by (bit_vector);
    assert(0x80 | (c & 0x3F) as u8 >= 0x80u8) by (bit_vector);
    assert(0x80 | ((c >> 6) & 0x3F) as u8 >= 0x80u8) by (bit_vector);
    assert(0x80 | ((c >> 12) & 0x3F) as u8 >= 0x80u8) by (bit_vector);
}

/// ASCII is valid UTF-8.
proof fn lemma_ascii_valid(bytes: Seq<u8>)
    requires
        forall|k: int| 0 <= k < bytes.len() ==> #[trigger] bytes[k] < 0x80,
    ensures
        valid_utf8(bytes),
    decreases bytes.len(),
{
    if bytes.len() > 0 {
        let b = bytes[0];
        assert(b < 0x80 ==> (b & 0x7F) as u32 == b as u32) by (bit_vector);
        lemma_ascii_valid(pop_first_scalar(bytes));
    }
}

/// The sixteen hexadecimal digits, with small letters and with capital ones, have the values
/// from zero on, and no other byte has one.
pub proof fn law_hex_digits_have_their_values(b: u8, d: int)
    ensures
        grammar::hex_digit(b) == Some(d) <==> is_hex_digit(b, d),
        grammar::hex_digit(b) is None <==> forall|v: int| !#[trigger] is_hex_digit(b, v),
{
    reveal_strlit("0123456789abcdef");
    reveal_strlit("0123456789ABCDEF");
    if let Some(v) = grammar::hex_digit(b) {
        assert(is_hex_digit(b, v));
    }
}

/// Four digits have the value whose numeral they are.
proof fn lemma_numeral_value(digits: Seq<u8>, value: int)
    requires
        digits.len() == 4,
    ensures
        spells_hex(digits, value) <==> grammar::hex_value(digits) == Some(value),
{
    law_hex_digits_have_their_values(digits[0], value / 0x1000);
    law_hex_digits_have_their_values(digits[1], value / 0x100 % 0x10);
    law_hex_digits_have_their_values(digits[2], value / 0x10 % 0x10);
    law_hex_digits_have_their_values(digits[3], value % 0x10);
    let three = digits.drop_last();
    let two = three.drop_last();
    let one = two.drop_last();
    assert(one.drop_last() =~= Seq::<u8>::empty());
    assert(grammar::hex_value(one.drop_last()) == Some(0int));
    assert(three.last() == digits[2] && two.last() == digits[1] && one.last() == digits[0]);
    assert(grammar::hex_value(one) == match grammar::hex_digit(digits[0]) {
        Some(a) => Some(16 * 0 + a),
        None => None,
    });
    assert(grammar::hex_value(two) == match (
        grammar::hex_digit(digits[0]),
        grammar::hex_digit(digits[1]),
    ) {
        (Some(a), Some(b)) => Some(16 * a + b),
        _ => None,
    });
    assert(grammar::hex_value(three) == match (
        grammar::hex_value(two),
        grammar::hex_digit(digits[2]),
    ) {
        (Some(a), Some(b)) => Some(16 * a + b),
        _ => None,
    });
}

/// Hexadecimal digits are ASCII.
proof fn lemma_hex_digits(digits: Seq<u8>)
    requires
        grammar::hex_value(digits) is Some,
    ensures
        forall|k: int| 0 <= k < digits.len() ==> #[trigger] digits[k] < 0x80,
    decreases digits.len(),
{
    if digits.len() > 0 {
        lemma_hex_digits(digits.drop_last());
        assert forall|k: int| 0 <= k < digits.len() implies #[trigger] digits[k] < 0x80 by {
            if k < digits.len() - 1 {
                assert(digits[k] == digits.drop_last()[k]);
            }
        }
    }
}

/// Four digits are read as one code unit.
proof fn lemma_unit_read(
    s: Seq<Option<u8>>,
    i: int,
    content: Seq<u8>,
    digits: Seq<u8>,
    high: Option<u32>,
)
    requires
        stands_at(s, i, digits),
        digits.len() == 4,
    ensures
        grammar::code_unit(s, i, content, Seq::empty(), high) == grammar::code_unit_end(
            s,
            i + 4,
            content,
            digits,
            high,
        ),
{
    assert(s[i + 0] == Some(digits[0]));
    assert(s[i + 1] == Some(digits[1]));
    assert(s[i + 2] == Some(digits[2]));
    assert(s[i + 3] == Some(digits[3]));
    let none = Seq::<u8>::empty();
    let one = none.push(digits[0]);
    let two = one.push(digits[1]);
    let three = two.push(digits[2]);
    assert(three.push(digits[3]) =~= digits);
    assert(grammar::code_unit(s, i, content, none, high) == grammar::code_unit(
        s,
        i + 1,
        content,
        one,
        high,
    ));
    assert(grammar::code_unit(s, i + 1, content, one, high) == grammar::code_unit(
        s,
        i + 2,
        content,
        two,
        high,
    ));
    assert(grammar::code_unit(s, i + 2, content, two, high) == grammar::code_unit(
        s,
        i + 3,
        content,
        three,
        high,
    ));
}

/// A spelled code unit is read as the escape that it is.
proof fn lemma_spelled_unit(s: Seq<Option<u8>>, i: int, content: Seq<u8>, bytes: Seq<u8>, unit: int)
    requires
        stands_at(s, i, bytes),
        spells_unit(bytes, unit),
    ensures
        grammar::hex_value(bytes.skip(2)) == Some(unit),
        grammar::string_body(s, i, content) == grammar::code_unit(
            s,
            i + 2,
            content,
            Seq::empty(),
            None,
        ),
        forall|high: Option<u32>|
            #[trigger] grammar::code_unit(s, i + 2, content, Seq::empty(), high)
                == grammar::code_unit_end(s, i + 6, content, bytes.skip(2), high),
        valid_utf8(bytes.skip(2)),
{
    let digits = bytes.skip(2);
    assert(s[i + 0] == Some(bytes[0]));
    assert(s[i + 1] == Some(bytes[1]));
    assert forall|k: int| 0 <= k < 4 implies s[i + 2 + k] == Some(#[trigger] digits[k]) by {
        assert(digits[k] == bytes[k + 2]);
    }
    lemma_numeral_value(digits, unit);
    lemma_hex_digits(digits);
    lemma_ascii_valid(digits);
    assert forall|high: Option<u32>|
        #[trigger] grammar::code_unit(s, i + 2, content, Seq::empty(), high)
            == grammar::code_unit_end(s, i + 6, content, digits, high) by {
        lemma_unit_read(s, i + 2, content, digits, high);
    }
    assert(grammar::string_body(s, i, content) == grammar::escape(s, i + 1, content));
}

/// A spelled character adds itself to the content.
proof fn lemma_spelled_char(s: Seq<Option<u8>>, i: int, content: Seq<u8>, bytes: Seq<u8>, c: char)
    requires
        stands_at(s, i, bytes),
        spells(bytes, c),
    ensures
        grammar::string_body(s, i, content) == grammar::string_body(
            s,
            i + bytes.len(),
            content + encode_scalar(c as u32),
        ),
{
    char_is_scalar(c);
    lemma_encoded_bytes(c as u32);
    if spells_plainly(bytes, c) {
        lemma_plain_run(s, i, content, bytes);
    } else if spells_shortly(bytes, c) {
        assert(s[i + 0] == Some(bytes[0]));
        assert(s[i + 1] == Some(bytes[1]));
        assert(grammar::escaped(bytes[1]) == Some(c as u8));
        assert(grammar::string_body(s, i, content) == grammar::escape(s, i + 1, content));
        assert(content.push(c as u8) =~= content + seq![c as u8]);
    } else if spells_unit(bytes, c as int) {
        lemma_spelled_unit(s, i, content, bytes, c as int);
    } else {
        let high = 0xD800 + (c as int - 0x10000) / 0x400;
        let low = 0xDC00 + (c as int - 0x10000) % 0x400;
        assert(grammar::surrogate_pair(high, low) == c as int);
        let first = bytes.take(6);
        let second = bytes.skip(6);
        assert(bytes =~= first + second);
        lemma_stands_parts(s, i, first, second);
        lemma_spelled_unit(s, i, content, first, high);
        lemma_spelled_unit(s, i + 6, content, second, low);
        assert(s[i + 6 + 0] == Some(second[0]));
        assert(s[i + 6 + 1] == Some(second[1]));
        let high_unit = high as u32;
        assert(grammar::code_unit(s, i + 2, content, Seq::empty(), None)
            == grammar::low_surrogate_backslash(s, i + 6, content, high_unit));
        assert(grammar::low_surrogate_backslash(s, i + 6, content, high_unit)
            == grammar::low_surrogate_letter(s, i + 7, content, high_unit));
        assert(grammar::low_surrogate_letter(s, i + 7, content, high_unit) == grammar::code_unit(
            s,
            i + 6 + 2,
            content,
            Seq::empty(),
            Some(high_unit),
        ));
    }
}

/// Spelled characters add themselves to the content.
proof fn lemma_spelled_text(
    s: Seq<Option<u8>>,
    i: int,
    content: Seq<u8>,
    pieces: Seq<Seq<u8>>,
    text: Seq<char>,
)
    requires
        stands_at(s, i, concatenated(pieces)),
        spells_text(pieces, text),
    ensures
        grammar::string_body(s, i, content) == grammar::string_body(
            s,
            i + concatenated(pieces).len(),
            content + encode_utf8(text),
        ),
    decreases pieces.len(),
{
    if pieces.len() == 0 {
        assert(content + encode_utf8(text) =~= content);
    } else {
        let rest = pieces.drop_first();
        let more = text.drop_first();
        lemma_stands_parts(s, i, pieces[0], concatenated(rest));
        lemma_spelled_char(s, i, content, pieces[0], text[0]);
        assert forall|k: int| 0 <= k < more.len() implies spells(#[trigger] rest[k], more[k]) by {
            assert(rest[k] == pieces[k + 1]);
            assert(more[k] == text[k + 1]);
        }
        let grown = content + encode_scalar(text[0] as u32);
        lemma_spelled_text(s, i + pieces[0].len(), grown, rest, more);
        assert(grown + encode_utf8(more) =~= content + encode_utf8(text));
    }
}

/// A quoted string is read up to what follows it.
proof fn lemma_quoted(
    pieces: Seq<Seq<u8>>,
    text: Seq<char>,
    later: Seq<Option<u8>>,
    depth: int,
)
    requires
        spells_text(pieces, text),
    ensures
        ({
            let s = model::events_of(in_quotes(pieces)) + later;
            grammar::lex(s, depth) == grammar::after_string(
                s,
                in_quotes(pieces).len() as int,
                text,
            )
        }),
{
    let bytes = in_quotes(pieces);
    let inner = concatenated(pieces);
    let n = inner.len() as int;
    let s = model::events_of(bytes) + later;
    assert forall|k: int| 0 <= k < bytes.len() implies s[0 + k] == Some(#[trigger] bytes[k]) by {}
    lemma_stands_parts(s, 0, seq!['"' as u8] + inner, seq!['"' as u8]);
    lemma_stands_parts(s, 0, seq!['"' as u8], inner);
    assert(s[0] == Some(bytes[0]));
    assert(s[n + 1] == Some(bytes[n + 1]));
    lemma_spelled_text(s, 1, Seq::empty(), pieces, text);
    assert(Seq::<u8>::empty() + encode_utf8(text) =~= encode_utf8(text));
    encode_utf8_valid_utf8(text);
    encode_utf8_decode_utf8(text);
    assert(grammar::lex(s, depth) == grammar::string_body(s, 1, Seq::empty()));
    assert(grammar::string_body(s, 1 + n, encode_utf8(text)) == grammar::after_string(
        s,
        n + 2,
        text,
    ));
}

/// A string in quotes, however its characters are spelled, is a string token of just
/// those characters, unless a colon makes it a key. Whitespace after it is used up in
/// looking for the colon.
pub proof fn law_string_is_read(
    pieces: Seq<Seq<u8>>,
    text: Seq<char>,
    space: Seq<u8>,
    next: Option<u8>,
    later: Seq<Option<u8>>,
    depth: int,
)
    requires
        spells_text(pieces, text),
        forall|k: int| 0 <= k < space.len() ==> token_laws::white(#[trigger] space[k]),
        next matches Some(b) ==> !token_laws::white(b) && b != ':' as u8,
    ensures
        grammar::lex(
            model::events_of(in_quotes(pieces)) + (model::events_of(space) + (seq![next] + later)),
            depth,
        ) == (Lexed::Token {
            token: TokenView::String(text),
            len: in_quotes(pieces).len() + space.len() + (if next is None {
                1int
            } else {
                0
            }),
        }),
{
    let tail = model::events_of(space) + (seq![next] + later);
    let s = model::events_of(in_quotes(pieces)) + tail;
    let start = in_quotes(pieces).len() as int;
    lemma_quoted(pieces, text, tail, depth);
    assert forall|k: int|
        0 <= k < space.len() implies s[start + k] == Some(#[trigger] space[k]) by {
        assert(tail[k] == Some(space[k]));
    }
    assert(s[start + space.len()] == next) by {
        assert(tail[space.len() as int] == next);
    }
    lemma_space_after_string(s, start, text, space);
}

/// A string in quotes that a colon follows, with or without whitespace between, is a
/// key of just its characters, however they are spelled.
pub proof fn law_key_is_read(
    pieces: Seq<Seq<u8>>,
    text: Seq<char>,
    space: Seq<u8>,
    later: Seq<Option<u8>>,
    depth: int,
)
    requires
        spells_text(pieces, text),
        forall|k: int| 0 <= k < space.len() ==> token_laws::white(#[trigger] space[k]),
    ensures
        grammar::lex(
            model::events_of(in_quotes(pieces)) + (model::events_of(space.push(':' as u8)) + later),
            depth,
        ) == (Lexed::Token {
            token: TokenView::Key(text),
            len: in_quotes(pieces).len() + space.len() + 1int,
        }),
{
    let tail = model::events_of(space.push(':' as u8)) + later;
    let s = model::events_of(in_quotes(pieces)) + tail;
    let start = in_quotes(pieces).len() as int;
    lemma_quoted(pieces, text, tail, depth);
    assert forall|k: int|
        0 <= k < space.len() implies s[start + k] == Some(#[trigger] space[k]) by {
        assert(tail[k] == Some(space.push(':' as u8)[k]));
    }
    assert(s[start + space.len()] == Some(':' as u8)) by {
        assert(tail[space.len() as int] == Some(space.push(':' as u8)[space.len() as int]));
    }
    lemma_space_after_string(s, start, text, space);
}

proof fn lemma_space_after_string(s: Seq<Option<u8>>, i: int, text: Seq<char>, space: Seq<u8>)
    requires
        stands_at(s, i, space),
        i + space.len() < s.len(),
        forall|k: int| 0 <= k < space.len() ==> token_laws::white(#[trigger] space[k]),
    ensures
        grammar::after_string(s, i, text) == grammar::after_string(s, i + space.len(), text),
    decreases space.len(),
{
    if space.len() > 0 {
        let rest = space.drop_first();
        assert(s[i + 0] == Some(space[0]));
        assert forall|k: int| 0 <= k < rest.len() implies {
            &&& s[i + 1 + k] == Some(#[trigger] rest[k])
            &&& token_laws::white(rest[k])
        } by {
            assert(rest[k] == space[k + 1]);
        }
        lemma_space_after_string(s, i + 1, text, rest);
    }
}

/// The bytes are a piece of a string between its quotes, and stand for this content: one
/// byte for itself, or an escape for the character's encoding.
pub open spec fn stands_for(bytes: Seq<u8>, content: Seq<u8>) -> bool {
    ||| bytes.len() == 1 && bytes[0] != '"' as u8 && bytes[0] != '\\' as u8 && content == bytes
    ||| exists|c: char| #[trigger] escapes(bytes, c) && content == encode_scalar(c as u32)
}

/// The bytes are an escape of the character.
pub open spec fn escapes(bytes: Seq<u8>, c: char) -> bool {
    ||| spells_shortly(bytes, c)
    ||| spells_unit(bytes, c as int)
    ||| spells_as_pair(bytes, c)
}

/// Each piece stands for the content at the same index.
pub open spec fn stand_for(pieces: Seq<Seq<u8>>, contents: Seq<Seq<u8>>) -> bool {
    &&& pieces.len() == contents.len()
    &&& forall|k: int|
        0 <= k < pieces.len() ==> stands_for(#[trigger] pieces[k], contents[k])
}

/// A string as far as these pieces.
pub open spec fn opened(pieces: Seq<Seq<u8>>) -> Seq<u8> {
    seq!['"' as u8] + concatenated(pieces)
}

proof fn lemma_piece(s: Seq<Option<u8>>, i: int, before: Seq<u8>, bytes: Seq<u8>, content: Seq<u8>)
    requires
        stands_at(s, i, bytes),
        stands_for(bytes, content),
    ensures
        grammar::string_body(s, i, before) == grammar::string_body(
            s,
            i + bytes.len(),
            before + content,
        ),
{
    if exists|c: char| #[trigger] escapes(bytes, c) && content == encode_scalar(c as u32) {
        let c = choose|c: char| #[trigger]
            escapes(bytes, c) && content == encode_scalar(c as u32);
        lemma_spelled_char(s, i, before, bytes, c);
    } else {
        lemma_plain_run(s, i, before, bytes);
    }
}

proof fn lemma_pieces(
    s: Seq<Option<u8>>,
    i: int,
    before: Seq<u8>,
    pieces: Seq<Seq<u8>>,
    contents: Seq<Seq<u8>>,
)
    requires
        stands_at(s, i, concatenated(pieces)),
        stand_for(pieces, contents),
    ensures
        grammar::string_body(s, i, before) == grammar::string_body(
            s,
            i + concatenated(pieces).len(),
            before + concatenated(contents),
        ),
    decreases pieces.len(),
{
    if pieces.len() == 0 {
        assert(before + concatenated(contents) =~= before);
    } else {
        let rest = pieces.drop_first();
        let more = contents.drop_first();
        lemma_stands_parts(s, i, pieces[0], concatenated(rest));
        lemma_piece(s, i, before, pieces[0], contents[0]);
        assert forall|k: int| 0 <= k < rest.len() implies stands_for(
            #[trigger] rest[k],
            more[k],
        ) by {
            assert(rest[k] == pieces[k + 1]);
            assert(more[k] == contents[k + 1]);
        }
        let grown = before + contents[0];
        lemma_pieces(s, i + pieces[0].len(), grown, rest, more);
        assert(grown + concatenated(more) =~= before + concatenated(contents));
    }
}

/// A string is read as far as its pieces go, and what follows them stands behind them.
proof fn lemma_opened(
    s: Seq<Option<u8>>,
    pieces: Seq<Seq<u8>>,
    contents: Seq<Seq<u8>>,
    rest: Seq<u8>,
    depth: int,
)
    requires
        stand_for(pieces, contents),
        stands_at(s, 0, opened(pieces) + rest),
    ensures
        grammar::lex(s, depth) == grammar::string_body(
            s,
            opened(pieces).len() as int,
            concatenated(contents),
        ),
        stands_at(s, opened(pieces).len() as int, rest),
{
    lemma_stands_parts(s, 0, opened(pieces), rest);
    lemma_stands_parts(s, 0, seq!['"' as u8], concatenated(pieces));
    assert(s[0] == Some(seq!['"' as u8][0]));
    lemma_pieces(s, 1, Seq::empty(), pieces, contents);
    assert(Seq::<u8>::empty() + concatenated(contents) =~= concatenated(contents));
    assert(grammar::lex(s, depth) == grammar::string_body(s, 1, Seq::empty()));
}

/// Malformed JSON, noticed `back` bytes behind the place named, with `len` events used up.
pub open spec fn flawed(error: Seq<char>, back: int, len: int) -> Lexed {
    Lexed::Flaw { flaw: FlawView::Json { error, back }, len }
}

/// A string whose content is text has just that text, whatever pieces it is written in.
pub proof fn law_content_is_decoded(
    s: Seq<Option<u8>>,
    pieces: Seq<Seq<u8>>,
    contents: Seq<Seq<u8>>,
    space: Seq<u8>,
    depth: int,
)
    requires
        stand_for(pieces, contents),
        valid_utf8(concatenated(contents)),
        forall|k: int| 0 <= k < space.len() ==> token_laws::white(#[trigger] space[k]),
        stands_at(s, 0, opened(pieces) + (seq!['"' as u8] + space)),
        opened(pieces).len() + 1int + space.len() < s.len(),
        s[opened(pieces).len() + 1int + space.len()] matches Some(b) ==> !token_laws::white(b),
    ensures
        ({
            let text = decode_utf8(concatenated(contents));
            let end = opened(pieces).len() + 1int + space.len();
            grammar::lex(s, depth) == match s[end] {
                None => Lexed::Token { token: TokenView::String(text), len: end + 1 },
                Some(b) => if b == ':' as u8 {
                    Lexed::Token { token: TokenView::Key(text), len: end + 1 }
                } else {
                    Lexed::Token { token: TokenView::String(text), len: end }
                },
            }
        }),
{
    let n = opened(pieces).len() as int;
    let text = decode_utf8(concatenated(contents));
    lemma_opened(s, pieces, contents, seq!['"' as u8] + space, depth);
    lemma_stands_parts(s, n, seq!['"' as u8], space);
    assert(s[n + 0] == Some(seq!['"' as u8][0]));
    assert(grammar::lex(s, depth) == grammar::after_string(s, n + 1, text));
    lemma_space_after_string(s, n + 1, text, space);
}

/// A string whose content is no text is refused.
pub proof fn law_content_must_be_text(
    s: Seq<Option<u8>>,
    pieces: Seq<Seq<u8>>,
    contents: Seq<Seq<u8>>,
    depth: int,
)
    requires
        stand_for(pieces, contents),
        !valid_utf8(concatenated(contents)),
        stands_at(s, 0, opened(pieces) + seq!['"' as u8]),
    ensures
        grammar::lex(s, depth) == flawed(
            "Invalid UTF-8 in string: "@ + text::utf8_complaint(
                text::utf8_error(concatenated(contents)),
            ),
            0,
            opened(pieces).len() + 1int,
        ),
{
    let n = opened(pieces).len() as int;
    lemma_opened(s, pieces, contents, seq!['"' as u8], depth);
    assert(s[n + 0] == Some(seq!['"' as u8][0]));
}

/// A string that the stream ends in is refused.
pub proof fn law_string_needs_its_closing_quote(
    s: Seq<Option<u8>>,
    pieces: Seq<Seq<u8>>,
    contents: Seq<Seq<u8>>,
    depth: int,
)
    requires
        stand_for(pieces, contents),
        stands_at(s, 0, opened(pieces)),
        opened(pieces).len() < s.len(),
        s[opened(pieces).len() as int] is None,
    ensures
        grammar::lex(s, depth) == flawed(
            "Unexpected EOF while parsing string"@,
            0,
            opened(pieces).len() + 1int,
        ),
{
    let none = Seq::<u8>::empty();
    assert(opened(pieces) + none =~= opened(pieces));
    lemma_opened(s, pieces, contents, none, depth);
}

/// A backslash is followed by one of nine letters, or refused.
pub proof fn law_escape_needs_a_known_letter(
    s: Seq<Option<u8>>,
    pieces: Seq<Seq<u8>>,
    contents: Seq<Seq<u8>>,
    letter: u8,
    depth: int,
)
    requires
        stand_for(pieces, contents),
        stands_at(s, 0, opened(pieces) + seq!['\\' as u8, letter]),
        letter != 'u' as u8,
        forall|c: char| !#[trigger] short_escape(letter as char, c),
    ensures
        grammar::lex(s, depth) == flawed(
            "Invalid JSON escape sequence: \\"@.push(letter as char),
            0,
            opened(pieces).len() + 2int,
        ),
{
    let n = opened(pieces).len() as int;
    let bytes = seq!['\\' as u8, letter];
    lemma_opened(s, pieces, contents, bytes, depth);
    assert(s[n + 0] == Some(bytes[0]));
    assert(s[n + 1] == Some(bytes[1]));
    if let Some(b) = grammar::escaped(letter) {
        assert(short_escape(letter as char, b as char));
    }
    assert(grammar::lex(s, depth) == grammar::escape(s, n + 1, concatenated(contents)));
}

/// A high surrogate, as an escape spells it, or nothing.
pub open spec fn leads_pair(lead: Seq<u8>, high: Option<int>) -> bool {
    match high {
        None => lead.len() == 0,
        Some(unit) => spells_unit(lead, unit) && 0xD800 <= unit <= 0xDBFF,
    }
}

/// The four bytes of a code unit are read where it is due: as the first of a string's escape,
/// or behind a high surrogate.
proof fn lemma_unit_due(
    s: Seq<Option<u8>>,
    i: int,
    content: Seq<u8>,
    lead: Seq<u8>,
    high: Option<int>,
    rest: Seq<u8>,
)
    requires
        leads_pair(lead, high),
        stands_at(s, i, lead + (seq!['\\' as u8, 'u' as u8] + rest)),
    ensures
        grammar::string_body(s, i, content) == grammar::code_unit(
            s,
            i + lead.len() + 2,
            content,
            Seq::empty(),
            match high {
                Some(unit) => Some(unit as u32),
                None => None,
            },
        ),
        stands_at(s, i + lead.len() + 2, rest),
{
    let mark = seq!['\\' as u8, 'u' as u8];
    let j = i + lead.len();
    lemma_stands_parts(s, i, lead, mark + rest);
    lemma_stands_parts(s, j, mark, rest);
    assert(s[j + 0] == Some(mark[0]));
    assert(s[j + 1] == Some(mark[1]));
    match high {
        None => {
            assert(grammar::string_body(s, i, content) == grammar::escape(s, i + 1, content));
        },
        Some(unit) => {
            lemma_high_surrogate(s, i, content, lead, unit);
            let u = unit as u32;
            assert(grammar::low_surrogate_backslash(s, j, content, u)
                == grammar::low_surrogate_letter(s, j + 1, content, u));
        },
    }
}

/// A high surrogate is read up to what follows it.
proof fn lemma_high_surrogate(
    s: Seq<Option<u8>>,
    i: int,
    content: Seq<u8>,
    lead: Seq<u8>,
    unit: int,
)
    requires
        spells_unit(lead, unit),
        0xD800 <= unit <= 0xDBFF,
        stands_at(s, i, lead),
    ensures
        grammar::string_body(s, i, content) == grammar::low_surrogate_backslash(
            s,
            i + 6,
            content,
            unit as u32,
        ),
{
    lemma_spelled_unit(s, i, content, lead, unit);
}

/// The four bytes behind `\\u` are hexadecimal digits, or refused.
pub proof fn law_unit_needs_hex_digits(
    s: Seq<Option<u8>>,
    pieces: Seq<Seq<u8>>,
    contents: Seq<Seq<u8>>,
    lead: Seq<u8>,
    high: Option<int>,
    digits: Seq<u8>,
    k: int,
    depth: int,
)
    requires
        stand_for(pieces, contents),
        leads_pair(lead, high),
        digits.len() == 4,
        0 <= k < 4,
        forall|d: int| !#[trigger] is_hex_digit(digits[k], d),
        stands_at(
            s,
            0,
            opened(pieces) + (lead + (seq!['\\' as u8, 'u' as u8] + digits)),
        ),
    ensures
        grammar::lex(s, depth) == flawed(
            if valid_utf8(digits) {
                "Invalid hex value in unicode escape sequence: "@ + decode_utf8(digits)
            } else {
                "Invalid UTF-8 in unicode escape sequence"@
            },
            4,
            opened(pieces).len() + lead.len() + 6int,
        ),
{
    let n = opened(pieces).len() as int;
    let content = concatenated(contents);
    let mark = seq!['\\' as u8, 'u' as u8];
    lemma_opened(s, pieces, contents, lead + (mark + digits), depth);
    lemma_unit_due(s, n, content, lead, high, digits);
    let unit = match high {
        Some(unit) => Some(unit as u32),
        None => None,
    };
    lemma_unit_read(s, n + lead.len() + 2, content, digits, unit);
    if let Some(value) = grammar::hex_value(digits) {
        lemma_numeral_value(digits, value);
    }
}

/// A low surrogate stands behind a high one, or is refused.
pub proof fn law_low_surrogate_needs_a_high_one(
    s: Seq<Option<u8>>,
    pieces: Seq<Seq<u8>>,
    contents: Seq<Seq<u8>>,
    bytes: Seq<u8>,
    unit: int,
    depth: int,
)
    requires
        stand_for(pieces, contents),
        spells_unit(bytes, unit),
        0xDC00 <= unit <= 0xDFFF,
        stands_at(s, 0, opened(pieces) + bytes),
    ensures
        grammar::lex(s, depth) == flawed(
            "Unmatched low surrogate in Unicode escape sequence"@,
            4,
            opened(pieces).len() + 6int,
        ),
{
    let n = opened(pieces).len() as int;
    lemma_opened(s, pieces, contents, bytes, depth);
    lemma_spelled_unit(s, n, concatenated(contents), bytes, unit);
}

/// A high surrogate is followed by another escape of a code unit, or refused.
pub proof fn law_high_surrogate_needs_another_unit(
    s: Seq<Option<u8>>,
    pieces: Seq<Seq<u8>>,
    contents: Seq<Seq<u8>>,
    lead: Seq<u8>,
    high: int,
    next: Seq<u8>,
    depth: int,
)
    requires
        stand_for(pieces, contents),
        spells_unit(lead, high),
        0xD800 <= high <= 0xDBFF,
        stands_at(s, 0, opened(pieces) + (lead + next)),
        next.len() == 1 && next[0] != '\\' as u8 || next.len() == 2 && next[0] == '\\' as u8
            && next[1] != 'u' as u8,
    ensures
        grammar::lex(s, depth) == flawed(
            "Unmatched high surrogate in Unicode escape sequence"@,
            0,
            opened(pieces).len() + next.len() + 5int,
        ),
{
    let n = opened(pieces).len() as int;
    let content = concatenated(contents);
    lemma_opened(s, pieces, contents, lead + next, depth);
    lemma_stands_parts(s, n, lead, next);
    lemma_high_surrogate(s, n, content, lead, high);
    assert(s[n + 6 + 0] == Some(next[0]));
    if next.len() == 2 {
        assert(s[n + 6 + 1] == Some(next[1]));
        let u = high as u32;
        assert(grammar::low_surrogate_backslash(s, n + 6, content, u)
            == grammar::low_surrogate_letter(s, n + 7, content, u));
    }
}

/// The code unit behind a high surrogate is a low one, or refused.
pub proof fn law_high_surrogate_needs_a_low_one(
    s: Seq<Option<u8>>,
    pieces: Seq<Seq<u8>>,
    contents: Seq<Seq<u8>>,
    lead: Seq<u8>,
    high: int,
    bytes: Seq<u8>,
    unit: int,
    depth: int,
)
    requires
        stand_for(pieces, contents),
        spells_unit(lead, high),
        0xD800 <= high <= 0xDBFF,
        spells_unit(bytes, unit),
        !(0xDC00 <= unit <= 0xDFFF),
        stands_at(s, 0, opened(pieces) + (lead + bytes)),
    ensures
        grammar::lex(s, depth) == flawed(
            "High surrogate not followed by low surrogate. Got "@ + text::numeral(unit as nat, 16),
            6,
            opened(pieces).len() + 12int,
        ),
{
    let n = opened(pieces).len() as int;
    let content = concatenated(contents);
    let mark = seq!['\\' as u8, 'u' as u8];
    let digits = bytes.skip(2);
    assert(bytes =~= mark + digits);
    lemma_opened(s, pieces, contents, lead + bytes, depth);
    lemma_unit_due(s, n, content, lead, Some(high), digits);
    lemma_unit_read(s, n + 8, content, digits, Some(high as u32));
    lemma_stands_parts(s, n, lead, bytes);
    lemma_spelled_unit(s, n + 6, content, bytes, unit);
}

/// The bytes are the beginning of an escape of a code unit that is not complete.
pub open spec fn unfinished(bytes: Seq<u8>) -> bool {
    &&& bytes.len() < 6
    &&& bytes.len() > 0 ==> bytes[0] == '\\' as u8
    &&& bytes.len() > 1 ==> bytes[1] == 'u' as u8
}

/// An escape that the stream ends in is refused, one behind a high surrogate too.
pub proof fn law_escape_needs_all_its_bytes(
    s: Seq<Option<u8>>,
    pieces: Seq<Seq<u8>>,
    contents: Seq<Seq<u8>>,
    lead: Seq<u8>,
    high: Option<int>,
    bytes: Seq<u8>,
    depth: int,
)
    requires
        stand_for(pieces, contents),
        leads_pair(lead, high),
        unfinished(bytes),
        lead.len() + bytes.len() > 0,
        stands_at(s, 0, opened(pieces) + (lead + bytes)),
        opened(pieces).len() + lead.len() + bytes.len() < s.len(),
        s[opened(pieces).len() + lead.len() + bytes.len() as int] is None,
    ensures
        grammar::lex(s, depth) == flawed(
            "Unexpected EOF while requesting to fill buffer"@,
            0,
            opened(pieces).len() + lead.len() + bytes.len() + 1int,
        ),
{
    let n = opened(pieces).len() as int;
    let content = concatenated(contents);
    let mark = seq!['\\' as u8, 'u' as u8];
    let j = n + lead.len();
    lemma_opened(s, pieces, contents, lead + bytes, depth);
    lemma_stands_parts(s, n, lead, bytes);
    if bytes.len() >= 2 {
        let digits = bytes.skip(2);
        assert(bytes =~= mark + digits);
        lemma_unit_due(s, n, content, lead, high, digits);
        let unit = match high {
            Some(unit) => Some(unit as u32),
            None => None,
        };
        lemma_unit_cut(s, j + 2, content, digits, unit);
    } else {
        if bytes.len() == 1 {
            assert(s[j + 0] == Some(bytes[0]));
        }
        match high {
            Some(unit) => {
                lemma_high_surrogate(s, n, content, lead, unit);
            },
            None => {
                assert(grammar::lex(s, depth) == grammar::escape(s, n + 1, content));
            },
        }
    }
}

/// A code unit that the stream ends in.
proof fn lemma_unit_cut(
    s: Seq<Option<u8>>,
    i: int,
    content: Seq<u8>,
    digits: Seq<u8>,
    high: Option<u32>,
)
    requires
        stands_at(s, i, digits),
        digits.len() < 4,
        i + digits.len() < s.len(),
        s[i + digits.len()] is None,
    ensures
        grammar::code_unit(s, i, content, Seq::empty(), high) == grammar::cut_short(
            i + digits.len() + 1,
        ),
{
    reveal_with_fuel(grammar::code_unit, 5);
    assert(forall|k: int| 0 <= k < digits.len() ==> s[i + k] == Some(#[trigger] digits[k]));
    if digits.len() > 0 {
        assert(s[i + 0] == Some(digits[0]));
    }
    if digits.len() > 1 {
        assert(s[i + 1] == Some(digits[1]));
    }
    if digits.len() > 2 {
        assert(s[i + 2] == Some(digits[2]));
    }
}

} // verus!
