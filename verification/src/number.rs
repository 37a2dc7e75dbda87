//! Unsigned decimal numbers: reading one from the pattern, and writing one out.

use vstd::prelude::*;

verus! {

pub open spec fn is_digit(b: u8) -> bool {
    0x30 <= b <= 0x39
}

/// The end of the longest run of digits that starts at `i`.
pub open spec fn digits_end(s: Seq<u8>, i: int) -> int
    decreases s.len() - i,
{
    if 0 <= i < s.len() && is_digit(s[i]) {
        digits_end(s, i + 1)
    } else {
        i
    }
}

/// The number that the digits `s[from..to]` write in base ten.
pub open spec fn digits_value(s: Seq<u8>, from: int, to: int) -> nat
    decreases to - from,
{
    if to <= from {
        0
    } else {
        digits_value(s, from, to - 1) * 10 + (s[to - 1] - 0x30) as nat
    }
}

/// The number written at `i` and the offset after it; nothing where no digit
/// stands at `i` or the number exceeds `usize::MAX`.
pub open spec fn number_at(s: Seq<u8>, i: int) -> Option<(usize, int)> {
    let end = digits_end(s, i);
    if end == i || digits_value(s, i, end) > usize::MAX {
        None
    } else {
        Some((digits_value(s, i, end) as usize, end))
    }
}

/// A run of digits that starts within `s` ends within `s`, at or after its start.
pub proof fn lemma_digits_end_bounds(s: Seq<u8>, i: int)
    requires
        0 <= i <= s.len(),
    ensures
        i <= digits_end(s, i) <= s.len(),
        forall|k: int| i <= k < digits_end(s, i) ==> is_digit(#[trigger] s[k]),
        digits_end(s, i) < s.len() ==> !is_digit(s[digits_end(s, i)]),
    decreases s.len() - i,
{
    if i < s.len() && is_digit(s[i]) {
        lemma_digits_end_bounds(s, i + 1);
    }
}

/// The executable outcome `result` is the outcome `model`.
pub open spec fn is_number(result: Option<(usize, usize)>, model: Option<(usize, int)>) -> bool {
    match (result, model) {
        (Some((value, end)), Some((model_value, model_end))) => value == model_value && end
            == model_end,
        (None, None) => true,
        _ => false,
    }
}

/// Reads the longest run of decimal digits at `index`.
pub fn parse_number(string: &[u8], index: usize) -> (result: Option<(usize, usize)>)
    ensures
        is_number(result, number_at(string@, index as int)),
        result matches Some((_, end)) ==> index < end <= string.len(),
{
    let mut current: usize = index;
    let mut value: usize = 0;
    let mut fits = true;
    while current < string.len() && string[current] >= 0x30 && string[current] <= 0x39
        invariant
            index <= current,
            current <= string.len() || current == index,
            digits_end(string@, index as int) == digits_end(string@, current as int),
            fits ==> value == digits_value(string@, index as int, current as int),
            !fits ==> digits_value(string@, index as int, current as int) > usize::MAX,
        decreases string.len() - current,
    {
        let digit: usize = (string[current] - 0x30) as usize;
        if fits {
            if value > (usize::MAX - digit) / 10 {
                fits = false;
            } else {
                value = value * 10 + digit;
            }
        }
        current += 1;
    }
    if current == index || !fits {
        None
    } else {
        Some((value, current))
    }
}

/// The character of a digit below ten.
pub open spec fn digit_char(d: nat) -> char {
    (0x30 + d) as u8 as char
}

/// A number in base ten, without leading zeros.
pub open spec fn decimal(n: nat) -> Seq<char>
    decreases n,
{
    if n < 10 {
        seq![digit_char(n)]
    } else {
        decimal(n / 10).push(digit_char(n % 10))
    }
}

/// `String::push`: the character is added at the end of the text and nothing
/// else changes.
#[verifier::external_body]
pub(crate) fn push_char(out: &mut String, c: char)
    ensures
        final(out)@ == old(out)@.push(c),
{
    out.push(c);
}

/// Writes `n` in base ten at the end of `out`.
pub fn push_decimal(out: &mut String, n: usize)
    ensures
        final(out)@ == old(out)@ + decimal(n as nat),
    decreases n,
{
    if n >= 10 {
        push_decimal(out, n / 10);
    }
    let digit: u8 = (n % 10) as u8;
    push_char(out, (0x30 + digit) as char);
}

} // verus!
