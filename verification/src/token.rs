//! Tokens, and how a token is shown in an error message.
use vstd::prelude::*;

use crate::text;
use crate::text::{join, quoted};

verus! {

/// Token types emitted by `next_token`.
#[derive(Debug, Eq, PartialEq, Clone)]
pub enum JsonToken {
    /// `{`
    StartObject,
    /// `,`
    EndObjectOrListItem,
    /// `}`
    EndObject,
    /// `[`
    StartArray,
    /// `]`
    EndArray,
    /// Object key.
    Key(String),
    /// String value.
    String(String),
    /// Number value (string form).
    Number(String),
    /// Boolean value.
    Boolean(bool),
    /// Null value.
    Null,
}

/// A token with its text as a sequence of characters.
pub enum TokenView {
    StartObject,
    EndObjectOrListItem,
    EndObject,
    StartArray,
    EndArray,
    Key(Seq<char>),
    String(Seq<char>),
    Number(Seq<char>),
    Boolean(bool),
    Null,
}

impl View for JsonToken {
    type V = TokenView;

    open spec fn view(&self) -> TokenView {
        match self {
            JsonToken::StartObject => TokenView::StartObject,
            JsonToken::EndObjectOrListItem => TokenView::EndObjectOrListItem,
            JsonToken::EndObject => TokenView::EndObject,
            JsonToken::StartArray => TokenView::StartArray,
            JsonToken::EndArray => TokenView::EndArray,
            JsonToken::Key(text) => TokenView::Key(text@),
            JsonToken::String(text) => TokenView::String(text@),
            JsonToken::Number(text) => TokenView::Number(text@),
            JsonToken::Boolean(b) => TokenView::Boolean(*b),
            JsonToken::Null => TokenView::Null,
        }
    }
}

/// The view of a token that may be missing.
pub open spec fn maybe(token: Option<JsonToken>) -> Option<TokenView> {
    match token {
        Some(t) => Some(t@),
        None => None,
    }
}

/// The text by which an error message shows a token.
pub open spec fn token_text(token: TokenView) -> Seq<char> {
    match token {
        TokenView::StartObject => "StartObject"@,
        TokenView::EndObjectOrListItem => "EndObjectOrListItem"@,
        TokenView::EndObject => "EndObject"@,
        TokenView::StartArray => "StartArray"@,
        TokenView::EndArray => "EndArray"@,
        TokenView::Key(text) => "Key("@ + text::debug_text(text) + ")"@,
        TokenView::String(text) => "String("@ + text::debug_text(text) + ")"@,
        TokenView::Number(text) => "Number("@ + text::debug_text(text) + ")"@,
        TokenView::Boolean(true) => "Boolean(true)"@,
        TokenView::Boolean(false) => "Boolean(false)"@,
        TokenView::Null => "Null"@,
    }
}

/// The text by which an error message shows a token, or the lack of one.
pub open spec fn found_text(token: Option<TokenView>) -> Seq<char> {
    match token {
        Some(t) => "Some("@ + token_text(t) + ")"@,
        None => "None"@,
    }
}

/// A name with what it holds in brackets; `head` ends in the opening bracket.
pub fn wrapped(head: &str, text: &str) -> (r: String)
    ensures
        r@ == head@ + text@ + ")"@,
{
    let mut r = join(head, text);
    r.append(")");
    r
}

/// Shows a token, as [`token_text`] says.
pub(crate) fn show_token(token: &JsonToken) -> (r: String)
    ensures
        r@ == token_text(token@),
{
    match token {
        JsonToken::StartObject => "StartObject".to_string(),
        JsonToken::EndObjectOrListItem => "EndObjectOrListItem".to_string(),
        JsonToken::EndObject => "EndObject".to_string(),
        JsonToken::StartArray => "StartArray".to_string(),
        JsonToken::EndArray => "EndArray".to_string(),
        JsonToken::Key(text) => wrapped("Key(", quoted(text.as_str()).as_str()),
        JsonToken::String(text) => wrapped("String(", quoted(text.as_str()).as_str()),
        JsonToken::Number(text) => wrapped("Number(", quoted(text.as_str()).as_str()),
        JsonToken::Boolean(b) => if *b {
            "Boolean(true)".to_string()
        } else {
            "Boolean(false)".to_string()
        },
        JsonToken::Null => "Null".to_string(),
    }
}

/// Shows a token that may be missing, as [`found_text`] says.
pub(crate) fn show_found(token: &Option<JsonToken>) -> (r: String)
    ensures
        r@ == found_text(maybe(*token)),
{
    match token {
        Some(t) => wrapped("Some(", show_token(t).as_str()),
        None => "None".to_string(),
    }
}

} // verus!
