//! Laws of the token grammar.
use vstd::prelude::*;

use crate::grammar;
use crate::grammar::{FlawView, Lexed, Word};
use crate::model;
use crate::number_laws;
use crate::place::Place;
use crate::string_laws;
use crate::token::TokenView;

verus! {

/// A space, a tab, a line feed or a carriage return.
pub open spec fn white(b: u8) -> bool {
    b == 0x20 || b == 0x09 || b == 0x0A || b == 0x0D
}

/// A token, a flaw or the end of the stream, once found, stays what it is whatever
/// comes later.
pub proof fn law_found_is_final(s: Seq<Option<u8>>, later: Seq<Option<u8>>, depth: int)
    requires
        grammar::lex(s, depth) !is More,
    ensures
        grammar::lex(s + later, depth) == grammar::lex(s, depth),
{
    Place::Start.lemma_stable(s, later, 0, depth);
}

/// Where the input stops short, no less than all of it belongs to what is found when
/// more comes: nothing that was used up has to be given back.
pub proof fn law_partial_is_used_up(s: Seq<Option<u8>>, later: Seq<Option<u8>>, depth: int)
    requires
        grammar::lex(s, depth) is More,
    ensures
        match grammar::lex(s + later, depth) {
            Lexed::More => true,
            Lexed::End { len } => s.len() <= len,
            Lexed::Token { len, .. } => s.len() <= len,
            Lexed::Flaw { len, .. } => s.len() <= len,
        },
{
    Place::Start.lemma_partial(s, later, 0, depth);
}

/// What is found lies inside the input, and a token is at least one event long.
pub proof fn law_found_is_inside(s: Seq<Option<u8>>, depth: int)
    ensures
        match grammar::lex(s, depth) {
            Lexed::More => true,
            Lexed::End { len } => 0 < len <= s.len(),
            Lexed::Token { len, .. } => 0 < len <= s.len(),
            Lexed::Flaw { len, .. } => 0 <= len <= s.len(),
        },
{
    Place::Start.lemma_bounds(s, 0, depth);
}

/// Whitespace before a token does not matter.
pub proof fn law_leading_whitespace(space: Seq<u8>, s: Seq<Option<u8>>, depth: int)
    requires
        forall|k: int| 0 <= k < space.len() ==> white(#[trigger] space[k]),
    ensures
        grammar::lex(model::events_of(space) + s, depth) == match grammar::lex(s, depth) {
            Lexed::More => Lexed::More,
            Lexed::End { len } => Lexed::End { len: space.len() + len },
            Lexed::Token { token, len } => Lexed::Token { token, len: space.len() + len },
            Lexed::Flaw { flaw, len } => Lexed::Flaw { flaw, len: space.len() + len },
        },
{
    lemma_over_whitespace(space, s, 0, depth);
    Place::Start.lemma_shift(model::events_of(space), s, 0, depth);
}

proof fn lemma_over_whitespace(space: Seq<u8>, s: Seq<Option<u8>>, i: int, depth: int)
    requires
        forall|k: int| 0 <= k < space.len() ==> white(#[trigger] space[k]),
        0 <= i <= space.len(),
    ensures
        grammar::token_start(model::events_of(space) + s, i, depth) == grammar::token_start(
            model::events_of(space) + s,
            space.len() as int,
            depth,
        ),
    decreases space.len() - i,
{
    if i < space.len() {
        assert((model::events_of(space) + s)[i] == Some(space[i]));
        lemma_over_whitespace(space, s, i + 1, depth);
    }
}

/// A literal is read as its token, whatever follows.
pub proof fn law_literal_is_read(word: Word, later: Seq<Option<u8>>, depth: int)
    ensures
        grammar::lex(model::events_of(word.letters()) + later, depth) == (Lexed::Token {
            token: word.token(),
            len: word.letters().len() as int,
        }),
{
    reveal_with_fuel(grammar::literal, 6);
    let s = model::events_of(word.letters()) + later;
    assert(forall|k: int|
        0 <= k < word.letters().len() ==> s[k] == Some(#[trigger] word.letters()[k]));
    assert(s[0] == Some(word.letters()[0]));
}

/// A bracket or a comma is its token, whatever follows; a closing bracket where none is
/// open is a flaw and is not used up.
pub proof fn law_punctuation_is_read(b: u8, later: Seq<Option<u8>>, depth: int)
    ensures
        ({
            let lexed = grammar::lex(seq![Some(b)] + later, depth);
            &&& b == '{' as u8 ==> lexed == (Lexed::Token { token: TokenView::StartObject, len: 1 })
            &&& b == '[' as u8 ==> lexed == (Lexed::Token { token: TokenView::StartArray, len: 1 })
            &&& b == ',' as u8 ==> lexed == (Lexed::Token {
                token: TokenView::EndObjectOrListItem,
                len: 1,
            })
            &&& b == '}' as u8 && depth > 0 ==> lexed == (Lexed::Token {
                token: TokenView::EndObject,
                len: 1,
            })
            &&& b == ']' as u8 && depth > 0 ==> lexed == (Lexed::Token {
                token: TokenView::EndArray,
                len: 1,
            })
            &&& (b == '}' as u8 || b == ']' as u8) && depth <= 0 ==> lexed == string_laws::flawed(
                "Unexpected JSON character: "@.push(b as char),
                0,
                0,
            )
        }),
{
    let s = seq![Some(b)] + later;
    assert(s[0] == Some(b));
}

/// Nothing yet is no token, and the end of the stream before a token is the end.
pub proof fn law_end_is_no_token(later: Seq<Option<u8>>, depth: int)
    ensures
        grammar::lex(Seq::empty(), depth) is More,
        grammar::lex(seq![None] + later, depth) == (Lexed::End { len: 1 }),
{
    assert((seq![None::<u8>] + later)[0] is None);
}

/// The byte can begin a token, where brackets are open.
pub open spec fn begins_token(b: u8) -> bool {
    ||| b == '{' as u8 || b == '}' as u8 || b == '[' as u8 || b == ']' as u8
    ||| b == ',' as u8 || b == '"' as u8 || b == '-' as u8 || '0' as u8 <= b <= '9' as u8
    ||| b == 'n' as u8 || b == 't' as u8 || b == 'f' as u8
}

/// A byte that is no whitespace and begins no token is refused, and not used up.
pub proof fn law_stray_byte_is_refused(b: u8, later: Seq<Option<u8>>, depth: int)
    requires
        !white(b),
        !begins_token(b),
    ensures
        grammar::lex(seq![Some(b)] + later, depth) == string_laws::flawed(
            "Unexpected JSON character: "@.push(b as char),
            0,
            0,
        ),
{
    assert((seq![Some(b)] + later)[0] == Some(b));
}

/// The word is a literal of JSON, for this token.
pub open spec fn literal_for(word: Seq<char>, token: TokenView) -> bool {
    ||| word == "null"@ && token == TokenView::Null
    ||| word == "true"@ && token == TokenView::Boolean(true)
    ||| word == "false"@ && token == TokenView::Boolean(false)
}

/// The letters of a literal, of which the word is made up.
proof fn lemma_word(word: Seq<char>, token: TokenView) -> (found: Word)
    requires
        literal_for(word, token),
    ensures
        found.token() == token,
        found.spelling() == word,
        found.letters() == number_laws::ascii(word),
        word.len() >= 4,
        forall|s: Seq<Option<u8>>, depth: int|
            s.len() > 0 && s[0] == Some(word[0] as u8) ==> #[trigger] grammar::lex(s, depth)
                == grammar::literal(s, 1, found, 1),
{
    reveal_strlit("null");
    reveal_strlit("true");
    reveal_strlit("false");
    let found = match token {
        TokenView::Null => Word::Null,
        TokenView::Boolean(b) => if b {
            Word::True
        } else {
            Word::False
        },
        _ => Word::Null,
    };
    assert(found.letters() =~= number_laws::ascii(word));
    found
}

proof fn lemma_letters(s: Seq<Option<u8>>, word: Word, k: int, n: int)
    requires
        1 <= k <= n <= word.letters().len(),
        n <= s.len(),
        forall|i: int| 0 <= i < n ==> s[i] == Some(#[trigger] word.letters()[i]),
    ensures
        grammar::literal(s, k, word, k) == grammar::literal(s, n, word, n),
    decreases n - k,
{
    if k < n {
        assert(s[k] == Some(word.letters()[k]));
        lemma_letters(s, word, k + 1, n);
    }
}

/// `null`, `true` and `false` are read as what they say, whatever follows.
pub proof fn law_literal_is_spelled_out(
    s: Seq<Option<u8>>,
    word: Seq<char>,
    token: TokenView,
    depth: int,
)
    requires
        literal_for(word, token),
        number_laws::reads_at(s, 0, word),
    ensures
        grammar::lex(s, depth) == (Lexed::Token { token, len: word.len() as int }),
{
    let found = lemma_word(word, token);
    assert forall|i: int| 0 <= i < word.len() implies s[i] == Some(
        #[trigger] found.letters()[i],
    ) by {
        assert(s[0 + i] == Some(word[i] as u8));
    }
    assert(s[0] == Some(found.letters()[0]));
    lemma_letters(s, found, 1, word.len() as int);
}

/// A literal that is not spelled out is refused: at the byte that differs, which is not used
/// up, or at the end of the stream.
pub proof fn law_misspelled_literal_is_refused(
    s: Seq<Option<u8>>,
    word: Seq<char>,
    token: TokenView,
    n: int,
    depth: int,
)
    requires
        literal_for(word, token),
        1 <= n < word.len(),
        number_laws::reads_at(s, 0, word.take(n)),
        n < s.len(),
        s[n] != Some(word[n] as u8),
    ensures
        grammar::lex(s, depth) == match s[n] {
            Some(b) => Lexed::Flaw {
                flaw: FlawView::Unexpected { expected: word, found: seq![b as char] },
                len: n,
            },
            None => string_laws::flawed(
                "Unexpected EOF while requesting to fill buffer"@,
                0,
                n + 1,
            ),
        },
{
    let found = lemma_word(word, token);
    assert forall|i: int| 0 <= i < n implies s[i] == Some(#[trigger] found.letters()[i]) by {
        assert(s[0 + i] == Some(word.take(n)[i] as u8));
    }
    assert(s[0] == Some(found.letters()[0]));
    lemma_letters(s, found, 1, n);
}

} // verus!
