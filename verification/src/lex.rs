//! The tokens of the surface language: runs of spaces and digits, symbols,
//! and the literals for integers, booleans and texts.

use vstd::prelude::*;
use vstd::slice::slice_subrange;
use vstd::utf8::{decode_utf8, valid_utf8};

verus! {

/// An ASCII letter.
pub open spec fn is_alpha(b: u8) -> bool {
    (0x41 <= b <= 0x5A) || (0x61 <= b <= 0x7A)
}

/// An ASCII digit.
pub open spec fn is_digit(b: u8) -> bool {
    0x30 <= b <= 0x39
}

/// A space or a tab.
pub open spec fn is_space(b: u8) -> bool {
    b == 0x20 || b == 0x09
}

/// A byte of a symbol: a letter, a digit or a hyphen.
pub open spec fn is_symbol_byte(b: u8) -> bool {
    is_alpha(b) || is_digit(b) || b == 0x2D
}

/// `nom::is_alphabetic` tells whether a byte is an ASCII letter.
pub assume_specification[ nom::is_alphabetic ](chr: u8) -> (r: bool)
    ensures
        r == is_alpha(chr),
;

/// `nom::is_alphanumeric` tells whether a byte is an ASCII letter or digit.
pub assume_specification[ nom::is_alphanumeric ](chr: u8) -> (r: bool)
    ensures
        r == (is_alpha(chr) || is_digit(chr)),
;

/// The number of digits with which the input begins from `pos` on.
pub open spec fn digit_run(input: Seq<u8>, pos: int) -> int
    decreases input.len() - pos,
{
    if 0 <= pos < input.len() && is_digit(input[pos]) {
        1 + digit_run(input, pos + 1)
    } else {
        0
    }
}

/// The number of spaces and tabs with which the input begins from `pos` on.
pub open spec fn space_run(input: Seq<u8>, pos: int) -> int
    decreases input.len() - pos,
{
    if 0 <= pos < input.len() && is_space(input[pos]) {
        1 + space_run(input, pos + 1)
    } else {
        0
    }
}

/// The number of symbol bytes with which the input begins from `pos` on.
pub open spec fn symbol_run(input: Seq<u8>, pos: int) -> int
    decreases input.len() - pos,
{
    if 0 <= pos < input.len() && is_symbol_byte(input[pos]) {
        1 + symbol_run(input, pos + 1)
    } else {
        0
    }
}

/// Calls `nom::digit` on the input and returns the length of what it
/// recognizes. Trusted: `nom::digit` recognizes the digits with which the
/// input begins, and fails where it begins with none.
#[verifier::external_body]
fn leading_digits(input: &[u8]) -> (r: Option<usize>)
    ensures
        r == if digit_run(input@, 0) > 0 {
            Some(digit_run(input@, 0) as usize)
        } else {
            None::<usize>
        },
{
    match nom::digit(input) {
        nom::IResult::Done(_, taken) => Some(taken.len()),
        _ => None,
    }
}

/// Calls `nom::space` on the input and returns the length of what it
/// recognizes. Trusted: `nom::space` recognizes the spaces and tabs with
/// which the input begins, and fails where it begins with none.
#[verifier::external_body]
fn leading_spaces(input: &[u8]) -> (r: Option<usize>)
    ensures
        r == if space_run(input@, 0) > 0 {
            Some(space_run(input@, 0) as usize)
        } else {
            None::<usize>
        },
{
    match nom::space(input) {
        nom::IResult::Done(_, taken) => Some(taken.len()),
        _ => None,
    }
}

/// Converts bytes to a text with `std::str::from_utf8`. Trusted: the
/// conversion succeeds exactly on valid UTF-8, and gives the characters
/// that the bytes encode.
#[verifier::external_body]
pub(crate) fn text_from(bytes: &[u8]) -> (r: Option<String>)
    ensures
        r is Some <==> valid_utf8(bytes@),
        r matches Some(s) ==> s@ == decode_utf8(bytes@),
{
    match std::str::from_utf8(bytes) {
        Ok(s) => Some(s.to_owned()),
        Err(_) => None,
    }
}

/// A run of digits is the same seen from the start of the rest of the
/// input.
pub proof fn lemma_digit_run_shift(input: Seq<u8>, pos: int, k: int)
    requires
        0 <= pos <= input.len(),
        0 <= k,
    ensures
        digit_run(input.subrange(pos, input.len() as int), k) == digit_run(input, pos + k),
        0 <= digit_run(input, pos + k) <= input.len() - (pos + k) || pos + k > input.len(),
    decreases input.len() - (pos + k),
{
    let rest = input.subrange(pos, input.len() as int);
    if pos + k < input.len() {
        assert(rest[k] == input[pos + k]);
        lemma_digit_run_shift(input, pos, k + 1);
    }
}

/// A run of spaces is the same seen from the start of the rest of the
/// input.
pub proof fn lemma_space_run_shift(input: Seq<u8>, pos: int, k: int)
    requires
        0 <= pos <= input.len(),
        0 <= k,
    ensures
        space_run(input.subrange(pos, input.len() as int), k) == space_run(input, pos + k),
        0 <= space_run(input, pos + k) <= input.len() - (pos + k) || pos + k > input.len(),
    decreases input.len() - (pos + k),
{
    let rest = input.subrange(pos, input.len() as int);
    if pos + k < input.len() {
        assert(rest[k] == input[pos + k]);
        lemma_space_run_shift(input, pos, k + 1);
    }
}

/// Skips the spaces and tabs at `pos` and returns the position behind them.
pub fn skip_spaces(input: &[u8], pos: usize) -> (r: usize)
    requires
        pos <= input@.len(),
    ensures
        r == pos + space_run(input@, pos as int),
        pos <= r <= input@.len(),
{
    proof {
        lemma_space_run_shift(input@, pos as int, 0);
    }
    match leading_spaces(slice_subrange(input, pos, input.len())) {
        Some(n) => pos + n,
        None => pos,
    }
}

/// Returns the position behind the digits at `pos`.
pub fn skip_digits(input: &[u8], pos: usize) -> (r: usize)
    requires
        pos <= input@.len(),
    ensures
        r == pos + digit_run(input@, pos as int),
        pos <= r <= input@.len(),
{
    proof {
        lemma_digit_run_shift(input@, pos as int, 0);
    }
    match leading_digits(slice_subrange(input, pos, input.len())) {
        Some(n) => pos + n,
        None => pos,
    }
}

/// The byte `b` stands at `pos`.
pub open spec fn at(input: Seq<u8>, pos: int, b: u8) -> bool {
    0 <= pos < input.len() && input[pos] == b
}

/// Tells whether the byte `b` stands at `pos`.
pub fn is_at(input: &[u8], pos: usize, b: u8) -> (r: bool)
    ensures
        r == at(input@, pos as int, b),
        r ==> pos < usize::MAX,
{
    pos < input.len() && input[pos] == b
}

/// Bytes below 128 are valid UTF-8.
pub proof fn lemma_ascii_valid(bytes: Seq<u8>)
    requires
        forall|i: int| 0 <= i < bytes.len() ==> #[trigger] bytes[i] < 0x80,
    ensures
        valid_utf8(bytes),
    decreases bytes.len(),
{
    if bytes.len() > 0 {
        let rest = vstd::utf8::pop_first_scalar(bytes);
        assert(rest =~= bytes.subrange(1, bytes.len() as int));
        assert forall|i: int| 0 <= i < rest.len() implies #[trigger] rest[i] < 0x80 by {
            assert(rest[i] == bytes[i + 1]);
        }
        lemma_ascii_valid(rest);
        let b = bytes[0];
        assert(b & 0x7F == b) by (bit_vector)
            requires
                b < 0x80,
        ;
    }
}

/// The symbol at `pos`: the longest run of letters, digits and hyphens,
/// which has to begin with a letter. Gives its text and the position
/// behind it.
pub open spec fn symbol(input: Seq<u8>, pos: int) -> Option<(Seq<char>, int)> {
    let n = symbol_run(input, pos);
    if n > 0 && is_alpha(input[pos]) {
        Some((decode_utf8(input.subrange(pos, pos + n)), pos + n))
    } else {
        None
    }
}

/// Reads the symbol at `pos`.
pub fn read_symbol(input: &[u8], pos: usize) -> (r: Option<(String, usize)>)
    requires
        pos <= input@.len(),
    ensures
        match symbol(input@, pos as int) {
            Some((name, p)) => r matches Some((s, q)) && s@ == name && q == p && pos < q
                <= input@.len(),
            None => r is None,
        },
{
    let mut end = pos;
    while end < input.len() && (nom::is_alphanumeric(input[end]) || input[end] == 0x2D)
        invariant
            pos <= end <= input@.len(),
            symbol_run(input@, pos as int) == (end - pos) + symbol_run(input@, end as int),
            forall|i: int| pos <= i < end ==> is_symbol_byte(#[trigger] input@[i]),
        decreases input@.len() - end,
    {
        end += 1;
    }
    if end == pos || !nom::is_alphabetic(input[pos]) {
        return None;
    }
    let bytes = slice_subrange(input, pos, end);
    proof {
        assert forall|i: int| 0 <= i < bytes@.len() implies #[trigger] bytes@[i] < 0x80 by {
            assert(is_symbol_byte(input@[pos + i]));
        }
        lemma_ascii_valid(bytes@);
    }
    match text_from(bytes) {
        Some(name) => Some((name, end)),
        None => None,
    }
}

/// The number that the digits `input[pos..end]` write, the first being the
/// most significant.
pub open spec fn number(input: Seq<u8>, pos: int, end: int) -> nat
    decreases end - pos,
{
    if end <= pos {
        0
    } else {
        number(input, pos, end - 1) * 10 + (input[end - 1] - 0x30) as nat
    }
}

/// The integer literal at `pos`: a run of digits whose number fits a
/// signed 64-bit integer. Gives the number and the position behind it.
pub open spec fn integer(input: Seq<u8>, pos: int) -> Option<(i64, int)> {
    let n = digit_run(input, pos);
    if n > 0 && number(input, pos, pos + n) <= i64::MAX {
        Some((number(input, pos, pos + n) as i64, pos + n))
    } else {
        None
    }
}

/// A run of digits stays within the input, and all its bytes are digits.
pub proof fn lemma_digit_run(input: Seq<u8>, pos: int)
    requires
        0 <= pos <= input.len(),
    ensures
        0 <= digit_run(input, pos) <= input.len() - pos,
        forall|i: int| pos <= i < pos + digit_run(input, pos) ==> is_digit(#[trigger] input[i]),
    decreases input.len() - pos,
{
    if pos < input.len() && is_digit(input[pos]) {
        lemma_digit_run(input, pos + 1);
    }
}

/// The number written by more digits is no smaller.
pub proof fn lemma_number_grows(input: Seq<u8>, pos: int, mid: int, end: int)
    requires
        pos <= mid <= end,
        forall|i: int| pos <= i < end ==> is_digit(#[trigger] input[i]),
    ensures
        number(input, pos, mid) <= number(input, pos, end),
    decreases end - mid,
{
    if mid < end {
        lemma_number_grows(input, pos, mid, end - 1);
        assert(is_digit(input[end - 1]));
    }
}

/// Reads the integer literal at `pos`.
pub fn read_integer(input: &[u8], pos: usize) -> (r: Option<(i64, usize)>)
    requires
        pos <= input@.len(),
    ensures
        match integer(input@, pos as int) {
            Some((value, p)) => r matches Some((x, q)) && x == value && q == p && pos < q
                <= input@.len(),
            None => r is None,
        },
{
    let end = skip_digits(input, pos);
    if end == pos {
        return None;
    }
    proof {
        lemma_digit_run(input@, pos as int);
    }
    let mut value: i64 = 0;
    let mut i = pos;
    while i < end
        invariant
            pos <= i <= end <= input@.len(),
            end == pos + digit_run(input@, pos as int),
            forall|k: int| pos <= k < end ==> is_digit(#[trigger] input@[k]),
            value == number(input@, pos as int, i as int),
        decreases end - i,
    {
        assert(is_digit(input@[i as int]));
        let digit = (input[i] - 0x30) as i64;
        if value > (i64::MAX - digit) / 10 {
            proof {
                lemma_number_grows(input@, pos as int, i + 1, end as int);
                assert(number(input@, pos as int, i + 1) == value * 10 + digit);
                assert(value * 10 + digit > i64::MAX);
            }
            return None;
        }
        value = value * 10 + digit;
        i += 1;
    }
    Some((value, end))
}

/// The bytes `word` stand at `pos`.
pub open spec fn starts_with(input: Seq<u8>, pos: int, word: Seq<u8>) -> bool {
    0 <= pos && pos + word.len() <= input.len() && input.subrange(pos, pos + word.len()) == word
}

/// The bytes of `true`.
pub open spec fn word_true() -> Seq<u8> {
    seq![0x74u8, 0x72u8, 0x75u8, 0x65u8]
}

/// The bytes of `false`.
pub open spec fn word_false() -> Seq<u8> {
    seq![0x66u8, 0x61u8, 0x6Cu8, 0x73u8, 0x65u8]
}

/// The boolean literal at `pos`: `true` or `false`.
pub open spec fn boolean(input: Seq<u8>, pos: int) -> Option<(bool, int)> {
    if starts_with(input, pos, word_true()) {
        Some((true, pos + 4))
    } else if starts_with(input, pos, word_false()) {
        Some((false, pos + 5))
    } else {
        None
    }
}

/// Reads the boolean literal at `pos`.
pub fn read_boolean(input: &[u8], pos: usize) -> (r: Option<(bool, usize)>)
    requires
        pos <= input@.len(),
    ensures
        match boolean(input@, pos as int) {
            Some((value, p)) => r matches Some((x, q)) && x == value && q == p && pos < q
                <= input@.len(),
            None => r is None,
        },
{
    let left = input.len() - pos;
    if left >= 4 && input[pos] == 0x74 && input[pos + 1] == 0x72 && input[pos + 2] == 0x75
        && input[pos + 3] == 0x65 {
        assert(input@.subrange(pos as int, pos + 4) =~= word_true());
        Some((true, pos + 4))
    } else if left >= 5 && input[pos] == 0x66 && input[pos + 1] == 0x61 && input[pos + 2] == 0x6C
        && input[pos + 3] == 0x73 && input[pos + 4] == 0x65 {
        assert(input@.subrange(pos as int, pos + 5) =~= word_false());
        proof {
            if starts_with(input@, pos as int, word_true()) {
                assert(input@.subrange(pos as int, pos + 4)[0] == 0x74u8);
            }
        }
        Some((false, pos + 5))
    } else {
        proof {
            if starts_with(input@, pos as int, word_true()) {
                let w = input@.subrange(pos as int, pos + 4);
                assert(w[0] == 0x74u8 && w[1] == 0x72u8 && w[2] == 0x75u8 && w[3] == 0x65u8);
            }
            if starts_with(input@, pos as int, word_false()) {
                let w = input@.subrange(pos as int, pos + 5);
                assert(w[0] == 0x66u8 && w[1] == 0x61u8 && w[2] == 0x6Cu8 && w[3] == 0x73u8 && w[4]
                    == 0x65u8);
            }
        }
        None
    }
}

/// The first position from `pos` on at which a double quote stands, or the
/// length of the input if none does.
pub open spec fn next_quote(input: Seq<u8>, pos: int) -> int
    decreases input.len() - pos,
{
    if pos < 0 || pos >= input.len() {
        input.len() as int
    } else if input[pos] == 0x22 {
        pos
    } else {
        next_quote(input, pos + 1)
    }
}

/// The text literal at `pos`: a double quote, any bytes but a double
/// quote, and a double quote; the bytes between have to be valid UTF-8.
/// Gives the text between the quotes and the position behind the literal.
pub open spec fn string(input: Seq<u8>, pos: int) -> Option<(Seq<char>, int)> {
    let close = next_quote(input, pos + 1);
    if at(input, pos, 0x22) && close < input.len() && valid_utf8(input.subrange(pos + 1, close)) {
        Some((decode_utf8(input.subrange(pos + 1, close)), close + 1))
    } else {
        None
    }
}

/// Reads the text literal at `pos`.
pub fn read_string(input: &[u8], pos: usize) -> (r: Option<(String, usize)>)
    requires
        pos <= input@.len(),
    ensures
        match string(input@, pos as int) {
            Some((value, p)) => r matches Some((s, q)) && s@ == value && q == p && pos < q
                <= input@.len(),
            None => r is None,
        },
{
    if !is_at(input, pos, 0x22) {
        return None;
    }
    let n = input.len();
    assert(pos < n);
    let mut close = pos + 1;
    while close < input.len() && input[close] != 0x22
        invariant
            pos < close <= input@.len(),
            next_quote(input@, pos + 1) == next_quote(input@, close as int),
        decreases input@.len() - close,
    {
        close += 1;
    }
    if close >= input.len() {
        return None;
    }
    match text_from(slice_subrange(input, pos + 1, close)) {
        Some(value) => Some((value, close + 1)),
        None => None,
    }
}

} // verus!
