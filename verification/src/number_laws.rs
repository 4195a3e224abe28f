//! Laws on numbers: the number tokens are the numbers of JSON, no more and no fewer.
use vstd::prelude::*;

use crate::grammar;
use crate::grammar::Lexed;
use crate::model;
use crate::place::{Place, Turn};
use crate::string_laws;
use crate::token::TokenView;
use crate::token_laws;

verus! {

pub open spec fn digit(c: char) -> bool {
    '0' <= c && c <= '9'
}

/// Only digits.
pub open spec fn all_digits(text: Seq<char>) -> bool {
    forall|k: int| 0 <= k < text.len() ==> digit(#[trigger] text[k])
}

/// Digits, at least one.
pub open spec fn digits(text: Seq<char>) -> bool {
    text.len() > 0 && all_digits(text)
}

/// The length of the minus sign, if there is one.
pub open spec fn sign_len(text: Seq<char>) -> int {
    if text.len() > 0 && text[0] == '-' {
        1
    } else {
        0
    }
}

/// A sign or none, and digits.
pub open spec fn integer(text: Seq<char>) -> bool {
    digits(text.skip(sign_len(text)))
}

/// A point stands at `p`, after an integer and before the digits of a fraction.
pub open spec fn pointed(text: Seq<char>, p: int) -> bool {
    &&& 0 <= p < text.len()
    &&& text[p] == '.'
    &&& integer(text.take(p))
    &&& digits(text.skip(p + 1))
}

/// A number without exponent.
pub open spec fn mantissa(text: Seq<char>) -> bool {
    integer(text) || exists|p: int| pointed(text, p)
}

/// A plus or minus sign or none, and digits.
pub open spec fn signed_digits(text: Seq<char>) -> bool {
    digits(text) || (text.len() > 0 && (text[0] == '+' || text[0] == '-') && digits(text.skip(1)))
}

/// The letter of the exponent stands at `q`, after a number without exponent and
/// before the exponent's digits.
pub open spec fn exponential(text: Seq<char>, q: int) -> bool {
    &&& 0 <= q < text.len()
    &&& text[q] == 'e' || text[q] == 'E'
    &&& mantissa(text.take(q))
    &&& signed_digits(text.skip(q + 1))
}

/// A zero stands before another digit at the front.
pub open spec fn superfluous_zero(text: Seq<char>) -> bool {
    let k = sign_len(text);
    k + 1 < text.len() && text[k] == '0' && digit(text[k + 1])
}

/// A number as JSON has it.
pub open spec fn json_number(text: Seq<char>) -> bool {
    &&& mantissa(text) || exists|q: int| exponential(text, q)
    &&& !superfluous_zero(text)
}

/// A byte that cannot belong to the number before it.
pub open spec fn ends_number(text: Seq<char>, b: u8) -> bool {
    &&& !('0' as u8 <= b <= '9' as u8)
    &&& integer(text) ==> b != '.' as u8
    &&& mantissa(text) ==> b != 'e' as u8 && b != 'E' as u8
}

/// The text stands in the input from index `i` on.
pub open spec fn reads_at(s: Seq<Option<u8>>, i: int, text: Seq<char>) -> bool {
    &&& 0 <= i <= i + text.len() <= s.len()
    &&& forall|k: int|
        0 <= k < text.len() ==> s[i + k] == Some(#[trigger] text[k] as u8) && (text[k] as u32)
            < 0x80
}

proof fn lemma_reads_part(s: Seq<Option<u8>>, i: int, text: Seq<char>, from: int, to: int)
    requires
        reads_at(s, i, text),
        0 <= from <= to <= text.len(),
    ensures
        reads_at(s, i + from, text.subrange(from, to)),
{
    let part = text.subrange(from, to);
    assert forall|k: int| 0 <= k < part.len() implies {
        &&& s[i + from + k] == Some(#[trigger] part[k] as u8)
        &&& (part[k] as u32) < 0x80
    } by {
        assert(part[k] == text[from + k]);
    }
}

/// Digits before the point are taken.
proof fn lemma_integer_run(
    s: Seq<Option<u8>>,
    i: int,
    text: Seq<char>,
    any: bool,
    run: Seq<char>,
)
    requires
        reads_at(s, i, run),
        all_digits(run),
    ensures
        grammar::integer_part(s, i, text, any) == grammar::integer_part(
            s,
            i + run.len(),
            text + run,
            any || run.len() > 0,
        ),
    decreases run.len(),
{
    if run.len() == 0 {
        assert(text + run =~= text);
    } else {
        let rest = run.drop_first();
        assert(s[i + 0] == Some(run[0] as u8));
        lemma_reads_part(s, i, run, 1, run.len() as int);
        assert(rest =~= run.subrange(1, run.len() as int));
        assert(text.push((run[0] as u8) as char) + rest =~= text + run);
        lemma_integer_run(s, i + 1, text.push((run[0] as u8) as char), true, rest);
    }
}

/// Digits after the point are taken.
proof fn lemma_fraction_run(s: Seq<Option<u8>>, i: int, text: Seq<char>, run: Seq<char>)
    requires
        reads_at(s, i, run),
        all_digits(run),
    ensures
        grammar::fraction_digits(s, i, text) == grammar::fraction_digits(
            s,
            i + run.len(),
            text + run,
        ),
    decreases run.len(),
{
    if run.len() == 0 {
        assert(text + run =~= text);
    } else {
        let rest = run.drop_first();
        assert(s[i + 0] == Some(run[0] as u8));
        lemma_reads_part(s, i, run, 1, run.len() as int);
        assert(rest =~= run.subrange(1, run.len() as int));
        assert(text.push((run[0] as u8) as char) + rest =~= text + run);
        lemma_fraction_run(s, i + 1, text.push((run[0] as u8) as char), rest);
    }
}

/// Digits of the exponent are taken.
proof fn lemma_exponent_run(s: Seq<Option<u8>>, i: int, text: Seq<char>, run: Seq<char>)
    requires
        reads_at(s, i, run),
        all_digits(run),
    ensures
        grammar::exponent_digits(s, i, text) == grammar::exponent_digits(
            s,
            i + run.len(),
            text + run,
        ),
    decreases run.len(),
{
    if run.len() == 0 {
        assert(text + run =~= text);
    } else {
        let rest = run.drop_first();
        assert(s[i + 0] == Some(run[0] as u8));
        lemma_reads_part(s, i, run, 1, run.len() as int);
        assert(rest =~= run.subrange(1, run.len() as int));
        assert(text.push((run[0] as u8) as char) + rest =~= text + run);
        lemma_exponent_run(s, i + 1, text.push((run[0] as u8) as char), rest);
    }
}

/// An integer is taken up to what follows it.
proof fn lemma_integer_read(s: Seq<Option<u8>>, text: Seq<char>, depth: int)
    requires
        reads_at(s, 0, text),
        integer(text),
    ensures
        grammar::lex(s, depth) == grammar::integer_part(s, text.len() as int, text, true),
{
    let k = sign_len(text);
    let run = text.skip(k);
    lemma_reads_part(s, 0, text, k, text.len() as int);
    assert(run =~= text.subrange(k, text.len() as int));
    assert(s[0] == Some(text[0] as u8));
    if k == 1 {
        assert(grammar::lex(s, depth) == grammar::integer_part(s, 1, seq!['-'], false));
        lemma_integer_run(s, 1, seq!['-'], false, run);
        assert(seq!['-'] + run =~= text);
    } else {
        assert(text[0] == run[0]);
        assert(grammar::lex(s, depth) == grammar::integer_part(s, 0, Seq::empty(), false));
        lemma_integer_run(s, 0, Seq::empty(), false, run);
        assert(Seq::<char>::empty() + run =~= text);
    }
}

/// The sign is that of the whole text.
proof fn lemma_sign_of_part(text: Seq<char>, p: int)
    requires
        0 <= p <= text.len(),
        integer(text.take(p)),
    ensures
        sign_len(text.take(p)) == sign_len(text),
        sign_len(text) < p,
{
}

/// An integer with a fraction is taken up to what follows it.
proof fn lemma_fraction_read(s: Seq<Option<u8>>, text: Seq<char>, p: int, depth: int)
    requires
        reads_at(s, 0, text),
        pointed(text, p),
    ensures
        grammar::lex(s, depth) == grammar::fraction_digits(s, text.len() as int, text),
{
    let front = text.take(p);
    let run = text.skip(p + 1);
    lemma_reads_part(s, 0, text, 0, p);
    assert(front =~= text.subrange(0, p));
    lemma_integer_read(s, front, depth);
    assert(s[p] == Some(text[p] as u8));
    assert(grammar::integer_part(s, p, front, true) == grammar::fraction(s, p, front));
    assert(grammar::fraction(s, p, front) == grammar::fraction_start(s, p + 1, front.push('.')));
    lemma_reads_part(s, 0, text, p + 1, text.len() as int);
    assert(run =~= text.subrange(p + 1, text.len() as int));
    assert(s[p + 1] == Some(run[0] as u8)) by {
        assert(run[0] == text[p + 1]);
    }
    lemma_fraction_run(s, p + 1, front.push('.'), run);
    assert(front.push('.') + run =~= text);
}

/// A number without exponent is taken up to a byte that follows it.
proof fn lemma_mantissa_read(s: Seq<Option<u8>>, text: Seq<char>, depth: int)
    requires
        reads_at(s, 0, text),
        mantissa(text),
        text.len() < s.len(),
        s[text.len() as int] matches Some(b) && !grammar::is_digit(b) && (integer(text) ==> b
            != '.' as u8),
    ensures
        grammar::lex(s, depth) == grammar::exponent(s, text.len() as int, text),
{
    let n = text.len() as int;
    if integer(text) {
        lemma_integer_read(s, text, depth);
        assert(grammar::integer_part(s, n, text, true) == grammar::fraction(s, n, text));
    } else {
        let p = choose|p: int| pointed(text, p);
        lemma_fraction_read(s, text, p, depth);
    }
}

/// A number with exponent is taken up to what follows it.
proof fn lemma_exponential_read(s: Seq<Option<u8>>, text: Seq<char>, q: int, depth: int)
    requires
        reads_at(s, 0, text),
        exponential(text, q),
    ensures
        grammar::lex(s, depth) == grammar::exponent_digits(s, text.len() as int, text),
{
    let n = text.len() as int;
    let front = text.take(q);
    let lettered = front.push(text[q]);
    let tail = text.skip(q + 1);
    lemma_reads_part(s, 0, text, 0, q);
    assert(front =~= text.subrange(0, q));
    assert(s[q] == Some(text[q] as u8));
    lemma_mantissa_read(s, front, depth);
    assert(grammar::exponent(s, q, front) == grammar::exponent_sign(s, q + 1, lettered));
    assert(tail[0] == text[q + 1]);
    assert(s[q + 1] == Some(text[q + 1] as u8));
    if digits(tail) {
        assert(grammar::exponent_sign(s, q + 1, lettered) == grammar::exponent_start(
            s,
            q + 1,
            lettered,
        ));
        lemma_reads_part(s, 0, text, q + 1, n);
        assert(tail =~= text.subrange(q + 1, n));
        lemma_exponent_run(s, q + 1, lettered, tail);
        assert(lettered + tail =~= text);
    } else {
        let signed = lettered.push(tail[0]);
        let run = tail.skip(1);
        assert(grammar::exponent_sign(s, q + 1, lettered) == grammar::exponent_start(
            s,
            q + 2,
            signed,
        ));
        lemma_reads_part(s, 0, text, q + 2, n);
        assert(run =~= text.subrange(q + 2, n));
        assert(run[0] == text[q + 2]);
        assert(s[q + 2] == Some(text[q + 2] as u8));
        lemma_exponent_run(s, q + 2, signed, run);
        assert(signed + run =~= text);
    }
}

/// After the first digit of a number without exponent comes a digit or the point.
proof fn lemma_second_of_mantissa(text: Seq<char>)
    requires
        mantissa(text),
    ensures
        ({
            let k = sign_len(text);
            &&& k < text.len()
            &&& k + 1 < text.len() ==> digit(text[k + 1]) || text[k + 1] == '.'
        }),
{
    let k = sign_len(text);
    if integer(text) {
        assert(k + 1 < text.len() ==> text[k + 1] == text.skip(k)[1]);
    } else {
        let p = choose|p: int| pointed(text, p);
        let front = text.take(p);
        lemma_sign_of_part(text, p);
        assert(k + 1 < p ==> text[k + 1] == front.skip(k)[1]);
    }
}

/// A number of JSON passes the test for superfluous zeros.
proof fn lemma_number_end(text: Seq<char>, len: int)
    requires
        json_number(text),
    ensures
        grammar::number_end(text, len) == (Lexed::Token { token: TokenView::Number(text), len }),
{
    let k = sign_len(text);
    if mantissa(text) {
        lemma_second_of_mantissa(text);
    } else {
        let q = choose|q: int| exponential(text, q);
        let front = text.take(q);
        lemma_second_of_mantissa(front);
        assert(sign_len(front) == k);
        assert(k + 1 < q ==> front[k + 1] == text[k + 1]);
    }
}

/// Every number of JSON is read as it is written, where a byte follows that cannot
/// belong to it.
pub proof fn law_number_is_read(s: Seq<Option<u8>>, text: Seq<char>, depth: int)
    requires
        json_number(text),
        reads_at(s, 0, text),
        text.len() < s.len(),
        s[text.len() as int] matches Some(b) && ends_number(text, b),
    ensures
        grammar::lex(s, depth) == (Lexed::Token {
            token: TokenView::Number(text),
            len: text.len() as int,
        }),
{
    let n = text.len() as int;
    lemma_number_end(text, n);
    if mantissa(text) {
        lemma_mantissa_read(s, text, depth);
    } else {
        let q = choose|q: int| exponential(text, q);
        lemma_exponential_read(s, text, q, depth);
    }
}

/// How often the end of the stream is asked after at the end of a number: once for
/// each part that could still follow.
pub open spec fn end_checks(text: Seq<char>) -> int {
    if integer(text) {
        3
    } else if mantissa(text) {
        2
    } else {
        1
    }
}

/// Every number of JSON is read as it is written at the end of the stream.
pub proof fn law_last_number_is_read(s: Seq<Option<u8>>, text: Seq<char>, depth: int)
    requires
        json_number(text),
        reads_at(s, 0, text),
        text.len() + end_checks(text) <= s.len(),
        forall|k: int|
            text.len() <= k < text.len() + end_checks(text) ==> (#[trigger] s[k]) is None,
    ensures
        grammar::lex(s, depth) == (Lexed::Token {
            token: TokenView::Number(text),
            len: text.len() + end_checks(text),
        }),
{
    let n = text.len() as int;
    lemma_number_end(text, n + end_checks(text));
    lemma_at_end(s, text, depth);
}

/// A byte that is no digit, or the end of the stream.
pub open spec fn no_digit(event: Option<u8>) -> bool {
    event matches Some(b) ==> !('0' as u8 <= b <= '9' as u8)
}

/// A minus sign is followed by a digit, or refused.
pub proof fn law_sign_needs_digits(s: Seq<Option<u8>>, depth: int)
    requires
        s.len() >= 2,
        s[0] == Some('-' as u8),
        no_digit(s[1]),
    ensures
        grammar::lex(s, depth) == string_laws::flawed(
            "InvalidNumber: -"@,
            0,
            if s[1] is None {
                2
            } else {
                1
            },
        ),
{
    reveal_strlit("InvalidNumber: -");
    reveal_strlit("InvalidNumber: ");
    assert("InvalidNumber: "@ + seq!['-'] =~= "InvalidNumber: -"@);
    assert(grammar::lex(s, depth) == grammar::integer_part(s, 1, seq!['-'], false));
}

/// A point is followed by a digit, or refused.
pub proof fn law_point_needs_digits(s: Seq<Option<u8>>, text: Seq<char>, depth: int)
    requires
        integer(text),
        reads_at(s, 0, text.push('.')),
        text.len() + 1 < s.len(),
        no_digit(s[text.len() + 1int]),
    ensures
        grammar::lex(s, depth) == match s[text.len() + 1int] {
            Some(b) => string_laws::flawed(
                "Invalid character after decimal point: "@.push(b as char),
                0,
                text.len() + 1int,
            ),
            None => string_laws::flawed(
                "InvalidNumber: unexpected EOF after decimal point"@,
                0,
                text.len() + 2int,
            ),
        },
{
    let n = text.len() as int;
    let all = text.push('.');
    lemma_reads_part(s, 0, all, 0, n);
    assert(all.subrange(0, n) =~= text);
    assert(s[0 + n] == Some(all[n] as u8));
    lemma_integer_read(s, text, depth);
    assert(grammar::integer_part(s, n, text, true) == grammar::fraction(s, n, text));
}

/// The letter of an exponent, and a sign behind it if there is one, are followed by a digit,
/// or refused.
pub proof fn law_exponent_needs_digits(
    s: Seq<Option<u8>>,
    text: Seq<char>,
    letter: char,
    sign: Option<char>,
    depth: int,
)
    requires
        mantissa(text),
        letter == 'e' || letter == 'E',
        sign matches Some(c) ==> c == '+' || c == '-',
        ({
            let all = match sign {
                Some(c) => text.push(letter).push(c),
                None => text.push(letter),
            };
            let n = all.len() as int;
            &&& reads_at(s, 0, all)
            &&& n < s.len()
            &&& no_digit(s[n])
            &&& sign is None && s[n] is None ==> n + 1 < s.len() && s[n + 1] is None
            &&& sign is None ==> s[n] != Some('+' as u8) && s[n] != Some('-' as u8)
        }),
    ensures
        ({
            let n = text.len() + (if sign is None {
                1int
            } else {
                2
            });
            grammar::lex(s, depth) == match s[n] {
                Some(b) => string_laws::flawed(
                    "Invalid character after exponent: "@.push(b as char),
                    0,
                    n,
                ),
                None => string_laws::flawed(
                    "InvalidNumber: unexpected EOF after exponent"@,
                    0,
                    n + (if sign is None {
                        2int
                    } else {
                        1
                    }),
                ),
            }
        }),
{
    let q = text.len() as int;
    let all = match sign {
        Some(c) => text.push(letter).push(c),
        None => text.push(letter),
    };
    lemma_reads_part(s, 0, all, 0, q);
    assert(all.subrange(0, q) =~= text);
    assert(s[0 + q] == Some(all[q] as u8));
    lemma_mantissa_read(s, text, depth);
    let lettered = text.push(letter);
    assert(grammar::exponent(s, q, text) == grammar::exponent_sign(s, q + 1, lettered));
    if let Some(c) = sign {
        assert(s[0 + (q + 1)] == Some(all[q + 1] as u8));
        assert(grammar::exponent_sign(s, q + 1, lettered) == grammar::exponent_start(
            s,
            q + 2,
            lettered.push(c),
        ));
    }
}

/// A number but for a superfluous zero at its front.
pub open spec fn zero_padded(text: Seq<char>) -> bool {
    &&& mantissa(text) || exists|q: int| exponential(text, q)
    &&& superfluous_zero(text)
}

proof fn lemma_zero_padded_end(text: Seq<char>, len: int)
    requires
        superfluous_zero(text),
    ensures
        grammar::number_end(text, len) == string_laws::flawed(
            "Invalid number: leading zeros are not allowed"@,
            0,
            len,
        ),
{
}

/// A zero before other digits is refused, before a byte that cannot belong to the number.
pub proof fn law_padded_number_is_refused(s: Seq<Option<u8>>, text: Seq<char>, depth: int)
    requires
        zero_padded(text),
        reads_at(s, 0, text),
        text.len() < s.len(),
        s[text.len() as int] matches Some(b) && ends_number(text, b),
    ensures
        grammar::lex(s, depth) == string_laws::flawed(
            "Invalid number: leading zeros are not allowed"@,
            0,
            text.len() as int,
        ),
{
    let n = text.len() as int;
    lemma_zero_padded_end(text, n);
    if mantissa(text) {
        lemma_mantissa_read(s, text, depth);
    } else {
        let q = choose|q: int| exponential(text, q);
        lemma_exponential_read(s, text, q, depth);
    }
}

/// A zero before other digits is refused, at the end of the stream too.
pub proof fn law_last_padded_number_is_refused(s: Seq<Option<u8>>, text: Seq<char>, depth: int)
    requires
        zero_padded(text),
        reads_at(s, 0, text),
        text.len() + end_checks(text) <= s.len(),
        forall|k: int|
            text.len() <= k < text.len() + end_checks(text) ==> (#[trigger] s[k]) is None,
    ensures
        grammar::lex(s, depth) == string_laws::flawed(
            "Invalid number: leading zeros are not allowed"@,
            0,
            text.len() + end_checks(text),
        ),
{
    let n = text.len() as int;
    lemma_zero_padded_end(text, n + end_checks(text));
    lemma_at_end(s, text, depth);
}

/// A number, padded or not, is read up to the end of the stream.
proof fn lemma_at_end(s: Seq<Option<u8>>, text: Seq<char>, depth: int)
    requires
        mantissa(text) || exists|q: int| exponential(text, q),
        reads_at(s, 0, text),
        text.len() + end_checks(text) <= s.len(),
        forall|k: int|
            text.len() <= k < text.len() + end_checks(text) ==> (#[trigger] s[k]) is None,
    ensures
        grammar::lex(s, depth) == grammar::number_end(text, text.len() + end_checks(text)),
{
    let n = text.len() as int;
    assert(s[n] is None);
    if integer(text) {
        lemma_integer_read(s, text, depth);
        assert(s[n + 1] is None);
        assert(s[n + 2] is None);
        assert(grammar::integer_part(s, n, text, true) == grammar::fraction(s, n + 1, text));
    } else if mantissa(text) {
        let p = choose|p: int| pointed(text, p);
        lemma_fraction_read(s, text, p, depth);
        assert(s[n + 1] is None);
        assert(grammar::fraction_digits(s, n, text) == grammar::exponent(s, n + 1, text));
    } else {
        let q = choose|q: int| exponential(text, q);
        lemma_exponential_read(s, text, q, depth);
    }
}

/// The same with one event more.
pub open spec fn with_one_more(lexed: Lexed) -> Lexed {
    match lexed {
        Lexed::More => Lexed::More,
        Lexed::End { len } => Lexed::End { len: len + 1 },
        Lexed::Token { token, len } => Lexed::Token { token, len: len + 1 },
        Lexed::Flaw { flaw, len } => Lexed::Flaw { flaw, len: len + 1 },
    }
}

/// The letter of an exponent.
pub open spec fn exponent_letter(event: Option<u8>) -> bool {
    event == Some('e' as u8) || event == Some('E' as u8)
}

/// Behind the number so far, and one report of the end, comes what can still belong to it.
pub open spec fn goes_on(s: Seq<Option<u8>>, text: Seq<char>) -> bool {
    let n = text.len() as int;
    ||| n + 1 < s.len() && mantissa(text) && exponent_letter(s[n + 1])
    ||| n + 1 < s.len() && integer(text) && s[n + 1] == Some('.' as u8)
    ||| n + 2 < s.len() && integer(text) && s[n + 1] is None && exponent_letter(s[n + 2])
}

/// What a place comes to does not depend on what stands before it.
proof fn lemma_same_rest(
    place: Place,
    s: Seq<Option<u8>>,
    i: int,
    t: Seq<Option<u8>>,
    j: int,
    depth: int,
)
    requires
        place.wf(),
        0 <= i <= s.len(),
        0 <= j <= t.len(),
        s.skip(i) == t.skip(j),
        i == j + 1,
    ensures
        place.outcome(s, i, depth) == with_one_more(place.outcome(t, j, depth)),
{
    let rest = s.skip(i);
    place.lemma_shift(s.take(i), rest, 0, depth);
    place.lemma_shift(t.take(j), rest, 0, depth);
    assert(s.take(i) + rest =~= s);
    assert(t.take(j) + rest =~= t);
}

/// An end of the stream that is reported between the parts of a number, and that more bytes
/// follow after all, makes no difference to it.
pub proof fn law_early_end_in_a_number_is_passed_over(
    s: Seq<Option<u8>>,
    text: Seq<char>,
    depth: int,
)
    requires
        reads_at(s, 0, text),
        goes_on(s, text),
        s[text.len() as int] is None,
    ensures
        grammar::lex(s, depth) == with_one_more(
            grammar::lex(s.remove(text.len() as int), depth),
        ),
{
    let n = text.len() as int;
    let t = s.remove(n);
    assert(forall|k: int| 0 <= k < n ==> t[k] == s[k]);
    assert forall|k: int| 0 <= k < text.len() implies t[0 + k] == Some(
        #[trigger] text[k] as u8,
    ) by {
        assert(s[0 + k] == Some(text[k] as u8));
    }
    assert(reads_at(t, 0, text)) by {
        assert forall|k: int| 0 <= k < text.len() implies (#[trigger] text[k] as u32) < 0x80 by {
            assert(s[0 + k] == Some(text[k] as u8));
        }
    }
    assert(t[n] == s[n + 1]);
    assert(s.skip(n + 1) =~= t.skip(n));
    if integer(text) {
        lemma_integer_read(s, text, depth);
        lemma_integer_read(t, text, depth);
        assert(grammar::integer_part(s, n, text, true) == grammar::fraction(s, n + 1, text));
        if s[n + 1] is None {
            assert(t[n + 1] == s[n + 2]);
            assert(s.skip(n + 2) =~= t.skip(n + 1));
            assert(grammar::integer_part(t, n, text, true) == grammar::fraction(t, n + 1, text));
            lemma_same_rest(Place::Exponent { text }, s, n + 2, t, n + 1, depth);
        } else {
            assert(grammar::integer_part(t, n, text, true) == grammar::fraction(t, n, text));
            lemma_same_rest(Place::Fraction { text }, s, n + 1, t, n, depth);
        }
    } else {
        let p = choose|p: int| pointed(text, p);
        lemma_fraction_read(s, text, p, depth);
        lemma_fraction_read(t, text, p, depth);
        assert(grammar::fraction_digits(s, n, text) == grammar::exponent(s, n + 1, text));
        assert(grammar::fraction_digits(t, n, text) == grammar::exponent(t, n, text));
        lemma_same_rest(Place::Exponent { text }, s, n + 1, t, n, depth);
    }
}

/// The same behind the letter of an exponent. A byte there that is no digit, a sign too, is
/// then refused.
pub proof fn law_early_end_in_an_exponent(
    s: Seq<Option<u8>>,
    text: Seq<char>,
    letter: char,
    depth: int,
)
    requires
        mantissa(text),
        letter == 'e' || letter == 'E',
        reads_at(s, 0, text.push(letter)),
        text.len() + 2 < s.len(),
        s[text.len() + 1int] is None,
        s[text.len() + 2int] is Some,
    ensures
        no_digit(s[text.len() + 2int]) ==> grammar::lex(s, depth) == string_laws::flawed(
            "Invalid character after exponent: "@.push(s[text.len() + 2int]->0 as char),
            0,
            text.len() + 2int,
        ),
        !no_digit(s[text.len() + 2int]) ==> grammar::lex(s, depth) == with_one_more(
            grammar::lex(s.remove(text.len() + 1int), depth),
        ),
{
    let q = text.len() as int;
    let all = text.push(letter);
    let t = s.remove(q + 1);
    assert(forall|k: int| 0 <= k < q + 1 ==> t[k] == s[k]);
    assert(s[0 + q] == Some(all[q] as u8));
    lemma_reads_part(s, 0, all, 0, q);
    assert(all.subrange(0, q) =~= text);
    lemma_mantissa_read(s, text, depth);
    assert(grammar::exponent(s, q, text) == grammar::exponent_sign(s, q + 1, all));
    assert(grammar::exponent_sign(s, q + 1, all) == grammar::exponent_start(s, q + 2, all));
    if !no_digit(s[q + 2]) {
        assert(reads_at(t, 0, text)) by {
            assert forall|k: int| 0 <= k < text.len() implies t[0 + k] == Some(
                #[trigger] text[k] as u8,
            ) && (text[k] as u32) < 0x80 by {
                assert(s[0 + k] == Some(text[k] as u8));
            }
        }
        assert(t[q] == s[q] && t[q + 1] == s[q + 2]);
        assert(s.skip(q + 2) =~= t.skip(q + 1));
        lemma_mantissa_read(t, text, depth);
        assert(grammar::exponent(t, q, text) == grammar::exponent_sign(t, q + 1, all));
        assert(grammar::exponent_sign(t, q + 1, all) == grammar::exponent_start(t, q + 1, all));
        lemma_same_rest(Place::ExponentStart { text: all }, s, q + 2, t, q + 1, depth);
    }
}

/// A number that the end of the stream was reported behind, once or twice, is complete where
/// bytes that follow after all do not belong to it.
pub proof fn law_number_ends_with_an_early_end(
    s: Seq<Option<u8>>,
    text: Seq<char>,
    ends: int,
    depth: int,
)
    requires
        json_number(text) || zero_padded(text),
        reads_at(s, 0, text),
        1 <= ends < end_checks(text),
        text.len() + ends < s.len(),
        forall|k: int| text.len() <= k < text.len() + ends ==> (#[trigger] s[k]) is None,
        s[text.len() + ends] is Some,
        !exponent_letter(s[text.len() + ends]),
        integer(text) && ends == 1 ==> s[text.len() + ends] != Some('.' as u8),
    ensures
        grammar::lex(s, depth) == if superfluous_zero(text) {
            string_laws::flawed(
                "Invalid number: leading zeros are not allowed"@,
                0,
                text.len() + ends,
            )
        } else {
            Lexed::Token { token: TokenView::Number(text), len: text.len() + ends }
        },
{
    let n = text.len() as int;
    if superfluous_zero(text) {
        lemma_zero_padded_end(text, n + ends);
    } else {
        lemma_number_end(text, n + ends);
    }
    assert(s[n] is None);
    if integer(text) {
        lemma_integer_read(s, text, depth);
        assert(grammar::integer_part(s, n, text, true) == grammar::fraction(s, n + 1, text));
        if ends == 2 {
            assert(s[n + 1] is None);
            assert(grammar::fraction(s, n + 1, text) == grammar::exponent(s, n + 2, text));
        } else {
            assert(grammar::fraction(s, n + 1, text) == grammar::exponent(s, n + 1, text));
        }
    } else {
        let p = choose|p: int| pointed(text, p);
        lemma_fraction_read(s, text, p, depth);
        assert(grammar::fraction_digits(s, n, text) == grammar::exponent(s, n + 1, text));
    }
}

/// The bytes of ASCII characters.
pub open spec fn ascii(text: Seq<char>) -> Seq<u8> {
    Seq::new(text.len(), |k: int| text[k] as u8)
}

/// An integer and a point.
spec fn at_point(text: Seq<char>) -> bool {
    text.len() > 0 && text.last() == '.' && integer(text.drop_last())
}

/// A number without exponent, the letter of the exponent, and its sign or none.
spec fn at_exponent(text: Seq<char>, q: int) -> bool {
    &&& 0 <= q < text.len()
    &&& text[q] == 'e' || text[q] == 'E'
    &&& mantissa(text.take(q))
    &&& text.len() == q + 1 || (text.len() == q + 2 && (text[q + 1] == '+' || text[q + 1] == '-'))
}

/// A digit comes next.
spec fn digit_next(s: Seq<Option<u8>>, i: int) -> bool {
    &&& 0 <= i < s.len()
    &&& s[i] matches Some(b) && grammar::is_digit(b)
}

/// The text that a place in a number has come to, if it is one.
spec fn text_at(place: Place) -> Option<Seq<char>> {
    match place {
        Place::IntegerPart { text, .. } => Some(text),
        Place::Fraction { text } => Some(text),
        Place::FractionStart { text } => Some(text),
        Place::FractionDigits { text } => Some(text),
        Place::Exponent { text } => Some(text),
        Place::ExponentSign { text } => Some(text),
        Place::ExponentStart { text } => Some(text),
        Place::ExponentDigits { text } => Some(text),
        _ => None,
    }
}

/// The text has the form that the place stands for.
spec fn in_form(place: Place, s: Seq<Option<u8>>, i: int) -> bool {
    match place {
        Place::IntegerPart { text, any } => {
            &&& all_digits(text.skip(sign_len(text)))
            &&& any == (text.len() > sign_len(text))
        },
        Place::Fraction { text } => integer(text),
        Place::FractionStart { text } => at_point(text),
        Place::FractionDigits { text } => {
            ||| exists|p: int| pointed(text, p)
            ||| at_point(text) && digit_next(s, i)
        },
        Place::Exponent { text } => mantissa(text),
        Place::ExponentSign { text } => {
            &&& text.len() > 0
            &&& text.last() == 'e' || text.last() == 'E'
            &&& mantissa(text.drop_last())
        },
        Place::ExponentStart { text } => exists|q: int| at_exponent(text, q),
        Place::ExponentDigits { text } => {
            ||| exists|q: int| exponential(text, q)
            ||| digit_next(s, i) && exists|q: int| at_exponent(text, q)
        },
        _ => true,
    }
}

/// A further digit keeps digits digits.
proof fn lemma_push_digit(text: Seq<char>, from: int, c: char)
    requires
        0 <= from <= text.len(),
        all_digits(text.skip(from)),
        digit(c),
    ensures
        digits(text.push(c).skip(from)),
{
    assert(text.push(c).skip(from) =~= text.skip(from).push(c));
}

/// A step inside a number keeps the form.
proof fn lemma_form_kept(place: Place, s: Seq<Option<u8>>, i: int, depth: int)
    requires
        0 <= i < s.len(),
        text_at(place) is Some,
        in_form(place, s, i),
    ensures
        match place.turn(s[i], depth) {
            Turn::On { place: next, used } => {
                &&& text_at(next) is Some
                &&& in_form(next, s, i + grammar::events(used))
                &&& match s[i] {
                    Some(b) => if used {
                        text_at(next)->0 == (text_at(place)->0).push(b as char) && b < 0x80
                    } else {
                        text_at(next) == text_at(place)
                    },
                    None => used && text_at(next) == text_at(place),
                }
            },
            Turn::Token { token, used } => {
                &&& token == TokenView::Number(text_at(place)->0)
                &&& json_number(text_at(place)->0)
                &&& used == (s[i] is None)
            },
            _ => true,
        },
{
    match place {
        Place::IntegerPart { text, any } => {
            if let Some(b) = s[i] {
                if grammar::is_digit(b) {
                    let c = b as char;
                    lemma_push_digit(text, sign_len(text), c);
                    assert(sign_len(text.push(c)) == sign_len(text));
                }
            }
        },
        Place::Fraction { text } => {
            assert(text.push('.').drop_last() =~= text);
        },
        Place::FractionStart { text } => {},
        Place::FractionDigits { text } => {
            if let Some(b) = s[i] {
                if grammar::is_digit(b) {
                    let c = b as char;
                    if exists|p: int| pointed(text, p) {
                        let p = choose|p: int| pointed(text, p);
                        lemma_push_digit(text, p + 1, c);
                        assert(text.push(c).take(p) =~= text.take(p));
                        assert(pointed(text.push(c), p));
                    } else {
                        let p = text.len() - 1;
                        assert(text.skip(p + 1) =~= Seq::<char>::empty());
                        lemma_push_digit(text, p + 1, c);
                        assert(text.push(c).take(p) =~= text.drop_last());
                        assert(pointed(text.push(c), p));
                    }
                }
            }
        },
        Place::Exponent { text } => {
            assert(text.push('e').drop_last() =~= text);
            assert(text.push('E').drop_last() =~= text);
        },
        Place::ExponentSign { text } => {
            let q = text.len() - 1;
            assert(text.take(q) =~= text.drop_last());
            assert(at_exponent(text, q));
            assert(text.push('+').take(q) =~= text.drop_last());
            assert(text.push('-').take(q) =~= text.drop_last());
            assert(at_exponent(text.push('+'), q));
            assert(at_exponent(text.push('-'), q));
        },
        Place::ExponentStart { text } => {},
        Place::ExponentDigits { text } => {
            if let Some(b) = s[i] {
                if grammar::is_digit(b) {
                    lemma_exponent_digit(text, b as char);
                }
            }
        },
        _ => {},
    }
}

/// A digit makes an exponent, or a longer one.
proof fn lemma_exponent_digit(text: Seq<char>, c: char)
    requires
        digit(c),
        (exists|q: int| exponential(text, q)) || (exists|q: int| at_exponent(text, q)),
    ensures
        exists|q: int| exponential(text.push(c), q),
{
    let longer = text.push(c);
    if exists|q: int| exponential(text, q) {
        let q = choose|q: int| exponential(text, q);
        let tail = text.skip(q + 1);
        assert(longer.take(q) =~= text.take(q));
        assert(longer.skip(q + 1) =~= tail.push(c));
        if !digits(tail) {
            lemma_push_digit(tail, 1, c);
        }
        assert(exponential(longer, q));
    } else {
        let q = choose|q: int| at_exponent(text, q);
        let tail = longer.skip(q + 1);
        assert(longer.take(q) =~= text.take(q));
        if text.len() == q + 1 {
            assert(tail =~= seq![c]);
        } else {
            assert(tail =~= seq![text[q + 1], c]);
            assert(tail.skip(1) =~= seq![c]);
        }
        assert(exponential(longer, q));
    }
}

/// The bytes between the two indices are those of the text.
pub open spec fn written(s: Seq<Option<u8>>, from: int, to: int, text: Seq<char>) -> bool {
    &&& 0 <= from <= to <= s.len()
    &&& model::bytes_of(s.subrange(from, to)) == ascii(text)
    &&& forall|k: int| 0 <= k < text.len() ==> (#[trigger] text[k] as u32) < 0x80
}

/// From inside a number, only a number comes, and it is what was written.
proof fn lemma_number_written(place: Place, s: Seq<Option<u8>>, from: int, i: int, depth: int)
    requires
        text_at(place) is Some,
        in_form(place, s, i),
        written(s, from, i, text_at(place)->0),
    ensures
        place.outcome(s, i, depth) matches Lexed::Token { token, len } ==> {
            &&& token matches TokenView::Number(text) && json_number(text) && written(
                s,
                from,
                len,
                text,
            )
        },
    decreases s.len() - i, place.rank(),
{
    place.lemma_turn(s, i, depth);
    if i < s.len() {
        lemma_form_kept(place, s, i, depth);
        let text = text_at(place)->0;
        assert(s.subrange(from, i + 1).drop_last() =~= s.subrange(from, i));
        assert(s.subrange(from, i + 1).last() == s[i]);
        if let Some(b) = s[i] {
            assert(ascii(text.push(b as char)) =~= ascii(text).push((b as char) as u8));
        }
        if let Turn::On { place: next, used } = place.turn(s[i], depth) {
            lemma_number_written(next, s, from, i + grammar::events(used), depth);
        }
    }
}

/// Strings and literals are no numbers.
proof fn lemma_no_number(place: Place, s: Seq<Option<u8>>, i: int, depth: int)
    requires
        place.wf(),
        0 <= i,
        text_at(place) is None,
        !(place is Start),
    ensures
        place.outcome(s, i, depth) matches Lexed::Token { token, .. } ==> !(token is Number),
    decreases s.len() - i, place.rank(),
{
    place.lemma_turn(s, i, depth);
    if i < s.len() {
        if let Turn::On { place: next, used } = place.turn(s[i], depth) {
            lemma_no_number(next, s, i + grammar::events(used), depth);
        }
    }
}

/// Whitespace up to `to`.
pub open spec fn blank(s: Seq<Option<u8>>, to: int) -> bool {
    &&& 0 <= to <= s.len()
    &&& forall|k: int|
        0 <= k < to ==> (#[trigger] s[k] matches Some(b) && token_laws::white(b))
}

proof fn lemma_number_found(s: Seq<Option<u8>>, i: int, depth: int)
    requires
        blank(s, i),
    ensures
        grammar::token_start(s, i, depth) matches Lexed::Token {
            token: TokenView::Number(text),
            len,
        } ==> json_number(text) && exists|from: int| #[trigger] blank(s, from) && written(
            s,
            from,
            len,
            text,
        ),
    decreases s.len() - i,
{
    Place::Start.lemma_turn(s, i, depth);
    if i < s.len() {
        if let Turn::On { place, used } = Place::Start.turn(s[i], depth) {
            let j = i + grammar::events(used);
            if place is Start {
                lemma_number_found(s, i + 1, depth);
            } else if text_at(place) is Some {
                let text = text_at(place)->0;
                assert(s.subrange(i, i) =~= Seq::<Option<u8>>::empty());
                assert(model::bytes_of(s.subrange(i, i)) =~= Seq::<u8>::empty());
                if used {
                    assert(s.subrange(i, i + 1).drop_last() =~= s.subrange(i, i));
                    assert(ascii(text) =~= seq!['-' as u8]);
                    assert(model::bytes_of(s.subrange(i, i + 1)) =~= seq!['-' as u8]);
                    assert(text.skip(sign_len(text)) =~= Seq::<char>::empty());
                } else {
                    assert(ascii(text) =~= Seq::<u8>::empty());
                    assert(text.skip(sign_len(text)) =~= Seq::<char>::empty());
                }
                lemma_number_written(place, s, i, j, depth);
                assert(blank(s, i));
            } else {
                lemma_no_number(place, s, j, depth);
            }
        }
    }
}

/// Every number token is a number of JSON, and just what is written in the input after
/// whitespace.
pub proof fn law_number_token_is_json(s: Seq<Option<u8>>, depth: int)
    ensures
        grammar::lex(s, depth) matches Lexed::Token { token: TokenView::Number(text), len }
            ==> json_number(text) && exists|from: int| #[trigger] blank(s, from) && written(
            s,
            from,
            len,
            text,
        ),
{
    lemma_number_found(s, 0, depth);
}

} // verus!
