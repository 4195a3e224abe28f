//! Text building: decimal and hexadecimal numerals, and the two places where
//! the standard library's own formatting and decoding of text is called.
use vstd::prelude::*;
use vstd::utf8::*;

verus! {

/// Declares the error that `String::from_utf8` returns.
#[verifier::external_type_specification]
#[verifier::external_body]
pub struct ExFromUtf8Error(std::string::FromUtf8Error);

/// The error with which `String::from_utf8` refuses these bytes.
pub uninterp spec fn utf8_error(bytes: Seq<u8>) -> std::string::FromUtf8Error;

/// The text that `Display` gives for a refused decoding.
pub uninterp spec fn utf8_complaint(error: std::string::FromUtf8Error) -> Seq<char>;

/// The text that `Debug` gives for a string: quoted, with escapes.
pub uninterp spec fn debug_text(text: Seq<char>) -> Seq<char>;

/// `String::push` appends one character at the end.
pub assume_specification[ std::string::String::push ](s: &mut std::string::String, ch: char)
    ensures
        final(s)@ == old(s)@.push(ch),
;

/// `String::from_utf8` accepts exactly the byte strings that are valid UTF-8 and
/// then holds the characters that they encode; which error refuses other bytes
/// is named by [`utf8_error`].
pub assume_specification[ std::string::String::from_utf8 ](vec: Vec<u8>) -> (r: Result<
    std::string::String,
    std::string::FromUtf8Error,
>)
    ensures
        r is Ok <==> valid_utf8(vec@),
        r matches Ok(s) ==> s@ == decode_utf8(vec@),
        r matches Err(e) ==> e == utf8_error(vec@),
;

/// `Display` of `std::string::FromUtf8Error`; the text is named by
/// [`utf8_complaint`].
#[verifier::external_body]
pub(crate) fn complaint(error: &std::string::FromUtf8Error) -> (r: String)
    ensures
        r@ == utf8_complaint(*error),
{
    format!("{}", error)
}

/// `Debug` of `str`; the text is named by [`debug_text`].
#[verifier::external_body]
pub(crate) fn quoted(text: &str) -> (r: String)
    ensures
        r@ == debug_text(text@),
{
    format!("{:?}", text)
}

/// The numeral for one digit, `0` to `9` and then `a` to `f`.
pub open spec fn digit_char(d: nat) -> char {
    if d < 10 {
        (48 + d) as u8 as char
    } else {
        (87 + d) as u8 as char
    }
}

/// A number written out in the given base, most significant digit first and
/// without leading zeros.
pub open spec fn numeral(n: nat, base: nat) -> Seq<char>
    decreases n,
{
    if n < base || base < 2 {
        seq![digit_char(n)]
    } else {
        proof {
            assert(n / base < n) by (nonlinear_arith)
                requires
                    base >= 2,
                    n >= base,
            ;
        }
        numeral(n / base, base).push(digit_char(n % base))
    }
}

/// Writes `n` out in base 10 or 16.
pub(crate) fn write_numeral(n: usize, base: usize) -> (r: String)
    requires
        base == 10 || base == 16,
    ensures
        r@ == numeral(n as nat, base as nat),
    decreases n,
{
    if n < base {
        let mut r = String::new();
        r.push(write_digit(n));
        assert(r@ =~= seq![digit_char(n as nat)]);
        r
    } else {
        let mut r = write_numeral(n / base, base);
        r.push(write_digit(n % base));
        r
    }
}

fn write_digit(d: usize) -> (c: char)
    requires
        d < 16,
    ensures
        c == digit_char(d as nat),
{
    if d < 10 {
        (48 + d) as u8 as char
    } else {
        (87 + d) as u8 as char
    }
}

/// A copy of `head` with `tail` written after it.
pub fn join(head: &str, tail: &str) -> (r: String)
    ensures
        r@ == head@ + tail@,
{
    let mut r = head.to_string();
    r.append(tail);
    r
}

/// A copy of `head` with one byte, read as a character, written after it.
pub(crate) fn join_byte(head: &str, byte: u8) -> (r: String)
    ensures
        r@ == head@.push(byte as char),
{
    let mut r = head.to_string();
    r.push(byte as char);
    r
}

} // verus!
