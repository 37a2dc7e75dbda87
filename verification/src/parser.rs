//! The grammar, rule by rule: a model of each rule and the function that computes it.
//!
//! ```text
//! alternation   := concatenation ('|' alternation)?
//! concatenation := postfix concatenation?
//! postfix       := atom ( '*' | '+' | '{' UINT ',' UINT '}' )?
//! atom          := ALNUM | '.' | '(' alternation ')'
//! ```
//!
//! A closing parenthesis is consumed by the rule that meets it, which is how a
//! group hands control back to the atom that opened it.

use crate::error::{fail, is_failure, Failure, ReError, ReErrorKind};
use crate::number::{lemma_digits_end_bounds, number_at, parse_number};
use crate::pattern::{lemma_same_tree_is_equality, same_tree, well_formed, Re};
use std::rc::Rc;
use vstd::prelude::*;
use vstd::string::StringSliceAdditionalSpecFns;

verus! {

/// What a rule yields in the model: a tree and the offset after it, or a failure.
pub type Parsed = Result<(Re, int), Failure>;

/// The executable outcome `result` is the outcome `model`.
pub open spec fn is_parsed(result: Result<(Re, usize), ReError>, model: Parsed) -> bool {
    match (result, model) {
        (Ok((re, next)), Ok((model_re, model_next))) => re == model_re && next as int
            == model_next,
        (Err(e), Err(f)) => is_failure(e, f),
        _ => false,
    }
}

/// A rule that succeeds from `i` on `s` ends after `i` and within `s`.
pub open spec fn advances(s: Seq<u8>, i: int, model: Parsed) -> bool {
    model matches Ok((_, next)) ==> i < next <= s.len()
}

/// `(`
pub const OPEN: u8 = 0x28;

/// `)`
pub const CLOSE: u8 = 0x29;

/// `*`
pub const STAR: u8 = 0x2a;

/// `+`
pub const PLUS: u8 = 0x2b;

/// `,`
pub const COMMA: u8 = 0x2c;

/// `.`
pub const DOT: u8 = 0x2e;

/// `{`
pub const BRACE_OPEN: u8 = 0x7b;

/// `|`
pub const BAR: u8 = 0x7c;

/// `}`
pub const BRACE_CLOSE: u8 = 0x7d;

/// An ASCII letter or digit.
pub open spec fn is_alnum(b: u8) -> bool {
    (0x61 <= b <= 0x7a) || (0x41 <= b <= 0x5a) || (0x30 <= b <= 0x39)
}

/// atom := ALNUM | '.' | '(' alternation ')'
pub open spec fn atom_at(s: Seq<u8>, i: int) -> Parsed
    decreases s.len() - i, 0int,
{
    if i < 0 || i >= s.len() {
        Err((ReErrorKind::OutOfRange, i, "Expected an atom"@))
    } else if is_alnum(s[i]) {
        Ok((Re::Char(s[i] as char), i + 1))
    } else if s[i] == DOT {
        Ok((Re::AnyChar, i + 1))
    } else if s[i] == OPEN {
        alternation_at(s, i + 1)
    } else {
        Err((ReErrorKind::InvalidChar, i, "Expected a char in [a-zA-Z0-9]"@))
    }
}

/// The suffix `{min,max}` of `inner`, whose `{` stands at `open`.
pub open spec fn repeat_at(s: Seq<u8>, inner: Re, open: int) -> Parsed {
    match number_at(s, open + 1) {
        None => Err((ReErrorKind::InvalidInt, open + 1, "Expected a positive integer"@)),
        Some((min, comma)) => if comma >= s.len() || s[comma] != COMMA {
            Err((ReErrorKind::OutOfRange, open, "Expected a ',' for postfix [reg]{a,b}"@))
        } else {
            match number_at(s, comma + 1) {
                None => Err((ReErrorKind::InvalidInt, comma, "Expected a positive integer"@)),
                Some((max, close)) => if min > max {
                    Err(
                        (
                            ReErrorKind::InvalidRange,
                            open,
                            "left number should be lower than or equal to the right one"@,
                        ),
                    )
                } else if close >= s.len() || s[close] != BRACE_CLOSE {
                    Err((ReErrorKind::InvalidChar, comma, "Expected a '}'"@))
                } else {
                    Ok((Re::Repeat(Rc::new(inner), min, max), close + 1))
                },
            }
        },
    }
}

/// postfix := atom ( '*' | '+' | '{' UINT ',' UINT '}' )?
pub open spec fn postfix_at(s: Seq<u8>, i: int) -> Parsed
    decreases s.len() - i, 1int,
{
    match atom_at(s, i) {
        Err(f) => Err(f),
        Ok((atom, next)) => if next >= s.len() {
            Ok((atom, next))
        } else if s[next] == STAR {
            Ok((Re::Kleen(Rc::new(atom)), next + 1))
        } else if s[next] == PLUS {
            Ok((Re::OneOrMore(Rc::new(atom)), next + 1))
        } else if s[next] == BRACE_OPEN {
            repeat_at(s, atom, next)
        } else {
            Ok((atom, next))
        },
    }
}

/// concatenation := postfix concatenation?
///
/// The test `i < next` always holds (see `lemma_rules_advance`); it is what
/// makes the definition well-founded.
pub open spec fn concatenation_at(s: Seq<u8>, i: int) -> Parsed
    decreases s.len() - i, 2int,
{
    match postfix_at(s, i) {
        Err(f) => Err(f),
        Ok((left, next)) => if next >= s.len() {
            Ok((left, next))
        } else if s[next] == CLOSE {
            Ok((left, next + 1))
        } else if s[next] == BAR || next <= i {
            Ok((left, next))
        } else {
            match alternation_at(s, next) {
                Err(f) => Err(f),
                Ok((right, end)) => Ok((Re::And(Rc::new(left), Rc::new(right)), end)),
            }
        },
    }
}

/// alternation := concatenation ('|' alternation)?
///
/// The test `i <= next` always holds (see `lemma_rules_advance`); it is what
/// makes the definition well-founded.
pub open spec fn alternation_at(s: Seq<u8>, i: int) -> Parsed
    decreases s.len() - i, 3int,
{
    match concatenation_at(s, i) {
        Err(f) => Err(f),
        Ok((left, next)) => if next >= s.len() || next < i {
            Ok((left, next))
        } else if s[next] == BAR {
            match alternation_at(s, next + 1) {
                Err(f) => Err(f),
                Ok((right, end)) => Ok((Re::Or(Rc::new(left), Rc::new(right)), end)),
            }
        } else if s[next] == CLOSE {
            Ok((left, next + 1))
        } else {
            Ok((left, next))
        },
    }
}

/// Every rule that succeeds consumes at least one byte and stops within the
/// pattern, so the depth of the recursion is bounded by the pattern's length.
pub proof fn lemma_rules_advance(s: Seq<u8>, i: int)
    ensures
        advances(s, i, atom_at(s, i)),
        advances(s, i, postfix_at(s, i)),
        advances(s, i, concatenation_at(s, i)),
        advances(s, i, alternation_at(s, i)),
    decreases s.len() - i,
{
    if 0 <= i < s.len() {
        lemma_rules_advance(s, i + 1);
        if let Ok((atom, open)) = atom_at(s, i) {
            if open < s.len() {
                lemma_digits_end_bounds(s, open + 1);
                if let Some((_, comma)) = number_at(s, open + 1) {
                    if comma < s.len() {
                        lemma_digits_end_bounds(s, comma + 1);
                    }
                }
            }
        }
        if let Ok((_, next)) = postfix_at(s, i) {
            if next < s.len() {
                lemma_rules_advance(s, next);
            }
        }
        if let Ok((_, next)) = concatenation_at(s, i) {
            if next < s.len() {
                lemma_rules_advance(s, next + 1);
            }
        }
    }
}

/// A rule that succeeds yields a well-formed tree.
pub open spec fn yields_well_formed(model: Parsed) -> bool {
    model matches Ok((re, _)) ==> well_formed(re)
}

/// No rule builds a bounded repetition whose bounds are out of order.
pub proof fn lemma_rules_yield_well_formed(s: Seq<u8>, i: int)
    ensures
        yields_well_formed(atom_at(s, i)),
        yields_well_formed(postfix_at(s, i)),
        yields_well_formed(concatenation_at(s, i)),
        yields_well_formed(alternation_at(s, i)),
    decreases s.len() - i,
{
    if 0 <= i < s.len() {
        lemma_rules_advance(s, i);
        lemma_rules_yield_well_formed(s, i + 1);
        assert(yields_well_formed(atom_at(s, i)));
        if let Ok((atom, open)) = atom_at(s, i) {
            assert(well_formed(Re::Kleen(Rc::new(atom))));
            assert(well_formed(Re::OneOrMore(Rc::new(atom))));
            assert(yields_well_formed(repeat_at(s, atom, open)));
        }
        assert(yields_well_formed(postfix_at(s, i)));
        if let Ok((left, next)) = postfix_at(s, i) {
            if next < s.len() {
                lemma_rules_yield_well_formed(s, next);
                if let Ok((right, _)) = alternation_at(s, next) {
                    assert(well_formed(Re::And(Rc::new(left), Rc::new(right))));
                }
            }
        }
        assert(yields_well_formed(concatenation_at(s, i)));
        if let Ok((left, next)) = concatenation_at(s, i) {
            if next < s.len() {
                lemma_rules_yield_well_formed(s, next + 1);
                if let Ok((right, _)) = alternation_at(s, next + 1) {
                    assert(well_formed(Re::Or(Rc::new(left), Rc::new(right))));
                }
            }
        }
    }
}

/// Parsing is a function of the pattern: two outcomes of parsing the same
/// bytes are both trees or both failures, and the two trees are equal.
pub proof fn lemma_same_input_same_tree(
    s: Seq<u8>,
    first: Result<Re, ReError>,
    second: Result<Re, ReError>,
)
    requires
        is_regexp(first, regexp_of(s)),
        is_regexp(second, regexp_of(s)),
    ensures
        first is Ok <==> second is Ok,
        first is Ok ==> same_tree(first->Ok_0, second->Ok_0),
{
    if first is Ok {
        lemma_same_tree_is_equality(first->Ok_0, second->Ok_0);
    }
}

/// No byte of `s` is outside ASCII.
pub open spec fn all_ascii(s: Seq<u8>) -> bool {
    forall|j: int| 0 <= j < s.len() ==> s[j] <= 0x7f
}

/// The first byte of `s` outside ASCII stands at `k`.
pub open spec fn first_non_ascii_at(s: Seq<u8>, k: int) -> bool {
    &&& 0 <= k < s.len()
    &&& s[k] > 0x7f
    &&& forall|j: int| 0 <= j < k ==> s[j] <= 0x7f
}

/// What a whole pattern parses to: text outside ASCII is rejected at its first
/// such byte; otherwise the pattern is the choice at offset 0, and what
/// follows that choice is not read.
pub open spec fn regexp_of(s: Seq<u8>) -> Result<Re, Failure> {
    if all_ascii(s) {
        match alternation_at(s, 0) {
            Ok((re, _)) => Ok(re),
            Err(f) => Err(f),
        }
    } else {
        Err((ReErrorKind::NonAsciiChar, choose|k: int| first_non_ascii_at(s, k), ""@))
    }
}

/// The executable outcome `result` is the outcome `model`.
pub open spec fn is_regexp(result: Result<Re, ReError>, model: Result<Re, Failure>) -> bool {
    match (result, model) {
        (Ok(re), Ok(model_re)) => re == model_re,
        (Err(e), Err(f)) => is_failure(e, f),
        _ => false,
    }
}

/// The offset of the first byte outside ASCII, if there is one.
pub fn first_non_ascii(string: &[u8]) -> (found: Option<usize>)
    ensures
        match found {
            Some(k) => first_non_ascii_at(string@, k as int),
            None => all_ascii(string@),
        },
{
    let mut i: usize = 0;
    while i < string.len()
        invariant
            i <= string.len(),
            forall|j: int| 0 <= j < i ==> string@[j] <= 0x7f,
        decreases string.len() - i,
    {
        if string[i] > 0x7f {
            return Some(i);
        }
        i += 1;
    }
    None
}

impl Re {
    /// Parses a whole pattern.
    pub fn parse_regexp(string: &str) -> (result: Result<Re, ReError>)
        ensures
            is_regexp(result, regexp_of(string.spec_bytes())),
            result matches Ok(re) ==> well_formed(re),
            forall|k: int|
                first_non_ascii_at(string.spec_bytes(), k) ==> (result matches Err(e) && e.0
                    == ReErrorKind::NonAsciiChar && e.1.at == k),
    {
        let bytes = string.as_bytes();
        proof {
            lemma_rules_yield_well_formed(bytes@, 0);
        }
        match first_non_ascii(bytes) {
            Some(index) => {
                proof {
                    let k = choose|k: int| first_non_ascii_at(bytes@, k);
                    assert(k == index) by {
                        if k < index {
                            assert(bytes@[k] <= 0x7f);
                        }
                        if index < k {
                            assert(bytes@[index as int] <= 0x7f);
                        }
                    }
                }
                Err(fail(ReErrorKind::NonAsciiChar, index, ""))
            },
            None => match parse_or(bytes, 0) {
                Ok((reg, _)) => Ok(reg),
                Err(e) => Err(e),
            },
        }
    }
}

/// Parses one atom at `index`.
pub fn parse_atom(string: &[u8], index: usize) -> (result: Result<(Re, usize), ReError>)
    ensures
        is_parsed(result, atom_at(string@, index as int)),
        result matches Ok((_, next)) ==> index < next <= string.len(),
    decreases string.len() - index, 0int,
{
    if index >= string.len() {
        return Err(fail(ReErrorKind::OutOfRange, index, "Expected an atom"));
    }
    let byte: u8 = string[index];
    if (byte >= 0x61 && byte <= 0x7a) || (byte >= 0x41 && byte <= 0x5a) || (byte >= 0x30 && byte
        <= 0x39) {
        Ok((Re::Char(byte as char), index + 1))
    } else if byte == DOT {
        Ok((Re::AnyChar, index + 1))
    } else if byte == OPEN {
        parse_or(string, index + 1)
    } else {
        Err(fail(ReErrorKind::InvalidChar, index, "Expected a char in [a-zA-Z0-9]"))
    }
}

/// Parses the suffix `{min,max}` of `inner`, whose `{` stands at `open`.
fn parse_repeat(string: &[u8], inner: Re, open: usize) -> (result: Result<
    (Re, usize),
    ReError,
>)
    requires
        open < string.len(),
    ensures
        is_parsed(result, repeat_at(string@, inner, open as int)),
        result matches Ok((_, next)) ==> open < next <= string.len(),
{
    match parse_number(string, open + 1) {
        None => Err(fail(ReErrorKind::InvalidInt, open + 1, "Expected a positive integer")),
        Some((min, comma)) => {
            if comma >= string.len() || string[comma] != COMMA {
                return Err(
                    fail(ReErrorKind::OutOfRange, open, "Expected a ',' for postfix [reg]{a,b}"),
                );
            }
            match parse_number(string, comma + 1) {
                None => Err(fail(ReErrorKind::InvalidInt, comma, "Expected a positive integer")),
                Some((max, close)) => {
                    if min > max {
                        return Err(
                            fail(
                                ReErrorKind::InvalidRange,
                                open,
                                "left number should be lower than or equal to the right one",
                            ),
                        );
                    }
                    if close >= string.len() || string[close] != BRACE_CLOSE {
                        return Err(fail(ReErrorKind::InvalidChar, comma, "Expected a '}'"));
                    }
                    Ok((Re::Repeat(Rc::new(inner), min, max), close + 1))
                },
            }
        },
    }
}

/// Parses one atom at `index` and the quantifier that follows it, if any.
pub fn parse_postfix(string: &[u8], index: usize) -> (result: Result<(Re, usize), ReError>)
    ensures
        is_parsed(result, postfix_at(string@, index as int)),
        result matches Ok((_, next)) ==> index < next <= string.len(),
    decreases string.len() - index, 1int,
{
    let (reg, after_atom) = match parse_atom(string, index) {
        Ok(found) => found,
        Err(e) => {
            return Err(e);
        },
    };
    if after_atom >= string.len() {
        return Ok((reg, after_atom));
    }
    let byte: u8 = string[after_atom];
    if byte == STAR {
        Ok((Re::Kleen(Rc::new(reg)), after_atom + 1))
    } else if byte == PLUS {
        Ok((Re::OneOrMore(Rc::new(reg)), after_atom + 1))
    } else if byte == BRACE_OPEN {
        parse_repeat(string, reg, after_atom)
    } else {
        Ok((reg, after_atom))
    }
}

/// Parses a run of adjacent terms at `index`.
pub fn parse_and(string: &[u8], index: usize) -> (result: Result<(Re, usize), ReError>)
    ensures
        is_parsed(result, concatenation_at(string@, index as int)),
        result matches Ok((_, next)) ==> index < next <= string.len(),
    decreases string.len() - index, 2int,
{
    let (left, after_left) = match parse_postfix(string, index) {
        Ok(found) => found,
        Err(e) => {
            return Err(e);
        },
    };
    if after_left >= string.len() {
        return Ok((left, after_left));
    }
    if string[after_left] == CLOSE {
        return Ok((left, after_left + 1));
    }
    if string[after_left] == BAR {
        return Ok((left, after_left));
    }
    match parse_or(string, after_left) {
        Ok((right, after_right)) => Ok((Re::And(Rc::new(left), Rc::new(right)), after_right)),
        Err(e) => Err(e),
    }
}

/// Parses the branches of a choice at `index`.
pub fn parse_or(string: &[u8], index: usize) -> (result: Result<(Re, usize), ReError>)
    ensures
        is_parsed(result, alternation_at(string@, index as int)),
        result matches Ok((_, next)) ==> index < next <= string.len(),
    decreases string.len() - index, 3int,
{
    let (left, new_index) = match parse_and(string, index) {
        Ok(found) => found,
        Err(e) => {
            return Err(e);
        },
    };
    if new_index < string.len() {
        let sep: u8 = string[new_index];
        if sep == BAR {
            match parse_or(string, new_index + 1) {
                Ok((right, end_index)) => Ok((Re::Or(Rc::new(left), Rc::new(right)), end_index)),
                Err(e) => Err(e),
            }
        } else if sep == CLOSE {
            Ok((left, new_index + 1))
        } else {
            Ok((left, new_index))
        }
    } else {
        Ok((left, new_index))
    }
}

} // verus!
