//! Reading the canonical text back: which trees the grammar rebuilds from their own text.
//!
//! Not every tree is rebuilt. The rule that meets a `)` consumes it, and the
//! choice around that rule then reads on: where a group is followed by `|`,
//! the choice inside the group takes what follows as its own right branch.
//! So the text `((a|b)|c)` of a choice whose left branch is a choice is read
//! back as `(a|(b|c))`. The trees below are read back as themselves; they
//! include every tree that a pattern without parentheses parses to.

use crate::error::Failure;
use crate::number::{decimal, digit_char, digits_end, digits_value, is_digit, number_at};
use crate::parser::{
    all_ascii, alternation_at, atom_at, concatenation_at, is_alnum, lemma_rules_advance,
    postfix_at, regexp_of, repeat_at, Parsed, BAR, BRACE_OPEN, CLOSE, DOT, OPEN, PLUS, STAR,
};
use crate::pattern::{printed, tree_of, Re};
use std::rc::Rc;
use vstd::prelude::*;

verus! {

/// The bytes of a text whose characters are all ASCII (see `is_ascii_text`).
pub open spec fn bytes_of(text: Seq<char>) -> Seq<u8>
    recommends
        is_ascii_text(text),
{
    Seq::new(text.len(), |k: int| text[k] as u8)
}

/// The bytes of `text` stand in `s` from offset `i` on.
pub open spec fn stands_at(s: Seq<u8>, i: int, text: Seq<char>) -> bool {
    &&& 0 <= i
    &&& i + text.len() <= s.len()
    &&& forall|k: int| 0 <= k < text.len() ==> s[i + k] == #[trigger] text[k] as u8
}

/// A text made of two parts stands where the first part stands and the
/// second follows it.
proof fn lemma_stands_at_parts(s: Seq<u8>, i: int, head: Seq<char>, tail: Seq<char>)
    requires
        stands_at(s, i, head + tail),
    ensures
        stands_at(s, i, head),
        stands_at(s, i + head.len(), tail),
{
    let whole = head + tail;
    assert forall|k: int| 0 <= k < head.len() implies s[i + k] == #[trigger] head[k] as u8 by {
        assert(whole[k] == head[k]);
    }
    assert forall|k: int| 0 <= k < tail.len() implies s[i + head.len() + k]
        == #[trigger] tail[k] as u8 by {
        assert(whole[head.len() + k] == tail[k]);
    }
}

/// A text of one character stands where its byte stands.
proof fn lemma_stands_at_one(s: Seq<u8>, i: int, c: char)
    requires
        stands_at(s, i, seq![c]),
    ensures
        0 <= i < s.len(),
        s[i] == c as u8,
{
    assert(seq![c][0] == c);
}

/// The text of a number is made of digits, and at least one.
proof fn lemma_decimal_is_digits(n: nat)
    ensures
        decimal(n).len() >= 1,
        forall|k: int| 0 <= k < decimal(n).len() ==> is_digit(#[trigger] decimal(n)[k] as u8),
        decimal(n)[decimal(n).len() - 1] as u8 == 0x30 + n % 10,
    decreases n,
{
    if n >= 10 {
        lemma_decimal_is_digits(n / 10);
    }
}

/// A run of digits ends at the first byte that is no digit.
proof fn lemma_digits_end_is(s: Seq<u8>, i: int, end: int)
    requires
        0 <= i <= end <= s.len(),
        forall|k: int| i <= k < end ==> is_digit(#[trigger] s[k]),
        end < s.len() ==> !is_digit(s[end]),
    ensures
        digits_end(s, i) == end,
    decreases end - i,
{
    if i < end {
        lemma_digits_end_is(s, i + 1, end);
    }
}

/// The digits of the text of `n` write `n`.
proof fn lemma_decimal_value(s: Seq<u8>, i: int, n: nat)
    requires
        stands_at(s, i, decimal(n)),
    ensures
        digits_value(s, i, i + decimal(n).len()) == n,
    decreases n,
{
    let end = i + decimal(n).len();
    lemma_decimal_is_digits(n);
    assert(s[i + (decimal(n).len() - 1)] == decimal(n)[decimal(n).len() - 1] as u8);
    if n >= 10 {
        assert(decimal(n) =~= decimal(n / 10) + seq![digit_char(n % 10)]);
        lemma_stands_at_parts(s, i, decimal(n / 10), seq![digit_char(n % 10)]);
        lemma_decimal_value(s, i, n / 10);
        assert(decimal(n).len() == decimal(n / 10).len() + 1);
    } else {
        assert(digits_value(s, i, i) == 0);
    }
}

/// The text of a number that fits, followed by no further digit, reads
/// back as that number.
pub proof fn lemma_decimal_reads_back(s: Seq<u8>, i: int, n: usize)
    requires
        stands_at(s, i, decimal(n as nat)),
        i + decimal(n as nat).len() < s.len() ==> !is_digit(s[i + decimal(n as nat).len()]),
    ensures
        number_at(s, i) == Some((n, i + decimal(n as nat).len())),
{
    let text = decimal(n as nat);
    let end = i + text.len();
    lemma_decimal_is_digits(n as nat);
    assert forall|k: int| i <= k < end implies is_digit(#[trigger] s[k]) by {
        assert(s[i + (k - i)] == text[k - i] as u8);
    }
    lemma_digits_end_is(s, i, end);
    lemma_decimal_value(s, i, n as nat);
}

/// A character that the grammar reads as a literal.
pub open spec fn is_literal(c: char) -> bool {
    is_alnum(c as u8) && (c as u8) as char == c
}

/// Every literal of the tree is one that the grammar reads.
pub open spec fn has_plain_literals(re: Re) -> bool
    decreases re,
{
    match re {
        Re::Char(c) => is_literal(c),
        Re::AnyChar => true,
        Re::Or(l, r) => has_plain_literals(*l) && has_plain_literals(*r),
        Re::And(l, r) => has_plain_literals(*l) && has_plain_literals(*r),
        Re::Kleen(c) => has_plain_literals(*c),
        Re::OneOrMore(c) => has_plain_literals(*c),
        Re::Repeat(c, _, _) => has_plain_literals(*c),
    }
}

/// A literal or `.`, under any number of quantifiers whose bounds are in order.
pub open spec fn is_quantified_atom(re: Re) -> bool
    decreases re,
{
    match re {
        Re::Char(c) => is_literal(c),
        Re::AnyChar => true,
        Re::Kleen(c) => is_quantified_atom(*c),
        Re::OneOrMore(c) => is_quantified_atom(*c),
        Re::Repeat(c, min, max) => min <= max && is_quantified_atom(*c),
        _ => false,
    }
}

/// A quantified atom, a choice between two quantified atoms, or a sequence
/// whose right operand is a quantified atom and whose left operand is plain.
pub open spec fn is_plain(re: Re) -> bool
    decreases re,
{
    match re {
        Re::Or(l, r) => is_quantified_atom(*l) && is_quantified_atom(*r),
        Re::And(l, r) => is_plain(*l) && is_quantified_atom(*r),
        _ => is_quantified_atom(re),
    }
}

/// A plain choice or a plain sequence.
pub open spec fn is_plain_pair(re: Re) -> bool {
    (re is Or || re is And) && is_plain(re)
}

/// A plain choice or sequence, under one or more quantifiers whose bounds
/// are in order.
pub open spec fn is_quantified_group(re: Re) -> bool
    decreases re,
{
    match re {
        Re::Kleen(c) => is_plain_pair(*c) || is_quantified_group(*c),
        Re::OneOrMore(c) => is_plain_pair(*c) || is_quantified_group(*c),
        Re::Repeat(c, min, max) => min <= max && (is_plain_pair(*c) || is_quantified_group(*c)),
        _ => false,
    }
}

/// A quantified atom or group; a choice between a quantified atom or group
/// and a right-leaning tree; or a sequence of a plain tree or a quantified
/// group and a right-leaning tree.
pub open spec fn is_right_leaning(re: Re) -> bool
    decreases re,
{
    match re {
        Re::Or(l, r) => (is_quantified_atom(*l) || is_quantified_group(*l)) && is_right_leaning(
            *r,
        ),
        Re::And(l, r) => (is_plain(*l) || is_quantified_group(*l)) && is_right_leaning(*r),
        _ => is_quantified_atom(re) || is_quantified_group(re),
    }
}

/// What a quantifier is applied to; any other tree itself.
pub open spec fn operand(re: Re) -> Re {
    match re {
        Re::Kleen(c) => *c,
        Re::OneOrMore(c) => *c,
        Re::Repeat(c, _, _) => *c,
        _ => re,
    }
}

/// Nothing but `)` stands in `s` from `j` on.
pub open spec fn closing_run(s: Seq<u8>, j: int) -> bool {
    0 <= j <= s.len() && forall|k: int| j <= k < s.len() ==> #[trigger] s[k] == CLOSE
}

/// The rule succeeded with this tree and stopped between `from` and `to`.
pub open spec fn reads(model: Parsed, re: Re, from: int, to: int) -> bool {
    model matches Ok((found, next)) && found == re && from <= next <= to
}

/// One of `*`, `+` and `{` stands at `j`.
pub open spec fn quantifier_at(s: Seq<u8>, j: int) -> bool {
    0 <= j < s.len() && (s[j] == STAR || s[j] == PLUS || s[j] == BRACE_OPEN)
}

/// One of `|` and `)` stands at `j`.
pub open spec fn separator_at(s: Seq<u8>, j: int) -> bool {
    0 <= j < s.len() && (s[j] == BAR || s[j] == CLOSE)
}

/// The rule succeeded with this tree and stopped at `next`.
pub open spec fn done(re: Re, next: int) -> Parsed {
    Ok((re, next))
}

/// The text of a tree starts with its literal, with `.` or with `(`.
proof fn lemma_printed_starts(re: Re)
    requires
        re is Char ==> is_literal(re->Char_0),
    ensures
        printed(re).len() >= 1,
        printed(re)[0] as u8 == OPEN || printed(re)[0] as u8 == DOT || is_alnum(
            printed(re)[0] as u8,
        ),
        !(re is Char || re is AnyChar) ==> printed(re)[0] as u8 == OPEN,
{
    if re is Char || re is AnyChar {
    } else {
        assert(printed(re)[0] == '(');
    }
}

/// Where the atom rule has read the operand of a quantifier and its closing
/// parenthesis, the postfix rule reads the quantifier and yields the
/// quantified tree.
proof fn lemma_quantifier_reads(s: Seq<u8>, i: int, from: int, re: Re)
    requires
        re is Kleen || re is OneOrMore || re is Repeat,
        re is Repeat ==> re->Repeat_1 <= re->Repeat_2,
        stands_at(s, i, printed(re)),
        atom_at(s, from) == done(operand(re), i + 2 + printed(operand(re)).len()),
    ensures
        postfix_at(s, from) == done(re, i + printed(re).len()),
{
    let inner = operand(re);
    let text = printed(inner);
    let close = i + 1 + text.len();
    let head = seq!['('] + text;
    if re is Kleen {
        lemma_stands_at_parts(s, i, head, seq![')', '*']);
        assert(seq![')', '*'][0] == ')' && seq![')', '*'][1] == '*');
        assert(s[close + 0] == CLOSE && s[close + 1] == STAR);
    } else if re is OneOrMore {
        lemma_stands_at_parts(s, i, head, seq![')', '+']);
        assert(seq![')', '+'][0] == ')' && seq![')', '+'][1] == '+');
        assert(s[close + 0] == CLOSE && s[close + 1] == PLUS);
    } else {
        let min = re->Repeat_1;
        let max = re->Repeat_2;
        let start = close + 2;
        let comma = start + decimal(min as nat).len();
        let brace = comma + 1 + decimal(max as nat).len();
        let t2 = head + seq![')', '{'];
        let t3 = t2 + decimal(min as nat);
        let t4 = t3 + seq![','];
        let t5 = t4 + decimal(max as nat);
        lemma_stands_at_parts(s, i, t5, seq!['}']);
        lemma_stands_at_parts(s, i, t4, decimal(max as nat));
        lemma_stands_at_parts(s, i, t3, seq![',']);
        lemma_stands_at_parts(s, i, t2, decimal(min as nat));
        lemma_stands_at_parts(s, i, head, seq![')', '{']);
        assert(seq![')', '{'][0] == ')' && seq![')', '{'][1] == '{');
        assert(s[close + 0] == CLOSE && s[close + 1] == BRACE_OPEN);
        lemma_stands_at_one(s, comma, ',');
        lemma_stands_at_one(s, brace, '}');
        lemma_decimal_reads_back(s, start, min);
        lemma_decimal_reads_back(s, comma + 1, max);
        assert(repeat_at(s, inner, close + 1) == done(re, brace + 1));
    }
}

/// The text of a quantified atom, followed by no quantifier, is read by the
/// postfix rule as that tree, and the rule stops at the end of the text.
pub proof fn lemma_quantified_atom_reads_back(s: Seq<u8>, i: int, re: Re)
    requires
        is_quantified_atom(re),
        stands_at(s, i, printed(re)),
        !quantifier_at(s, i + printed(re).len()),
    ensures
        postfix_at(s, i) == done(re, i + printed(re).len()),
    decreases re,
{
    if re is Char {
        lemma_stands_at_one(s, i, re->Char_0);
        assert(atom_at(s, i) == done(re, i + 1));
    } else if re is AnyChar {
        lemma_stands_at_one(s, i, '.');
        assert(atom_at(s, i) == done(re, i + 1));
    } else {
        let inner = operand(re);
        let close = i + 1 + printed(inner).len();
        let head = seq!['('] + printed(inner);
        if re is Kleen {
            lemma_stands_at_parts(s, i, head, seq![')', '*']);
            assert(seq![')', '*'][0] == ')');
        } else if re is OneOrMore {
            lemma_stands_at_parts(s, i, head, seq![')', '+']);
            assert(seq![')', '+'][0] == ')');
        } else {
            let t2 = head + seq![')', '{'];
            let t3 = t2 + decimal(re->Repeat_1 as nat);
            let t4 = t3 + seq![','];
            let t5 = t4 + decimal(re->Repeat_2 as nat);
            lemma_stands_at_parts(s, i, t5, seq!['}']);
            lemma_stands_at_parts(s, i, t4, decimal(re->Repeat_2 as nat));
            lemma_stands_at_parts(s, i, t3, seq![',']);
            lemma_stands_at_parts(s, i, t2, decimal(re->Repeat_1 as nat));
            lemma_stands_at_parts(s, i, head, seq![')', '{']);
            assert(seq![')', '{'][0] == ')');
        }
        assert(s[close + 0] == CLOSE);
        lemma_stands_at_parts(s, i, seq!['('], printed(inner));
        lemma_stands_at_one(s, i, '(');
        lemma_quantified_atom_reads_back(s, i + 1, inner);
        assert(postfix_at(s, i + 1) == done(inner, close));
        assert(concatenation_at(s, i + 1) == done(inner, close + 1));
        lemma_quantifier_reads_after_group(s, i, re);
    }
}

/// Where the postfix rule has read the operand of a quantifier inside its
/// parentheses, the postfix rule reads the whole quantified tree from its
/// opening parenthesis.
proof fn lemma_quantifier_reads_after_group(s: Seq<u8>, i: int, re: Re)
    requires
        re is Kleen || re is OneOrMore || re is Repeat,
        re is Repeat ==> re->Repeat_1 <= re->Repeat_2,
        stands_at(s, i, printed(re)),
        0 <= i < s.len(),
        s[i] == OPEN,
        i + 2 + printed(operand(re)).len() < s.len(),
        quantifier_at(s, i + 2 + printed(operand(re)).len()),
        concatenation_at(s, i + 1) == done(operand(re), i + 2 + printed(operand(re)).len()),
    ensures
        postfix_at(s, i) == done(re, i + printed(re).len()),
{
    let after = i + 2 + printed(operand(re)).len();
    assert(alternation_at(s, i + 1) == done(operand(re), after));
    assert(atom_at(s, i) == done(operand(re), after));
    lemma_quantifier_reads(s, i, i, re);
}

/// The text of a plain tree, followed by the end of the pattern or by a byte
/// that is neither a quantifier nor `|` nor `)`, is read by the postfix rule
/// as that tree, and the rule stops at the end of the text.
pub proof fn lemma_plain_reads_back(s: Seq<u8>, i: int, re: Re)
    requires
        is_plain(re),
        stands_at(s, i, printed(re)),
        !quantifier_at(s, i + printed(re).len()),
        !separator_at(s, i + printed(re).len()),
    ensures
        postfix_at(s, i) == done(re, i + printed(re).len()),
    decreases re,
{
    let end = i + printed(re).len();
    if re is Or {
        let left = tree_of(re->Or_0);
        let right = tree_of(re->Or_1);
        let bar = i + 1 + printed(left).len();
        let t2 = seq!['('] + printed(left);
        let t3 = t2 + seq!['|'];
        let t4 = t3 + printed(right);
        lemma_stands_at_parts(s, i, t4, seq![')']);
        lemma_stands_at_parts(s, i, t3, printed(right));
        lemma_stands_at_parts(s, i, t2, seq!['|']);
        lemma_stands_at_parts(s, i, seq!['('], printed(left));
        lemma_stands_at_one(s, i, '(');
        lemma_stands_at_one(s, bar, '|');
        lemma_stands_at_one(s, end - 1, ')');
        lemma_quantified_atom_reads_back(s, i + 1, left);
        lemma_quantified_atom_reads_back(s, bar + 1, right);
        assert(concatenation_at(s, i + 1) == done(left, bar));
        assert(postfix_at(s, bar + 1) == done(right, end - 1));
        assert(concatenation_at(s, bar + 1) == done(right, end));
        assert(alternation_at(s, bar + 1) == done(right, end));
        assert(alternation_at(s, i + 1) == done(re, end));
        assert(atom_at(s, i) == done(re, end));
    } else if re is And {
        let left = tree_of(re->And_0);
        let right = tree_of(re->And_1);
        let mid = i + 1 + printed(left).len();
        let t2 = seq!['('] + printed(left);
        let t3 = t2 + printed(right);
        lemma_stands_at_parts(s, i, t3, seq![')']);
        lemma_stands_at_parts(s, i, t2, printed(right));
        lemma_stands_at_parts(s, i, seq!['('], printed(left));
        lemma_stands_at_one(s, i, '(');
        lemma_stands_at_one(s, end - 1, ')');
        assert(is_quantified_atom(right));
        lemma_printed_starts(right);
        assert(s[mid + 0] == printed(right)[0] as u8);
        lemma_plain_reads_back(s, i + 1, left);
        lemma_quantified_atom_reads_back(s, mid, right);
        assert(postfix_at(s, i + 1) == done(left, mid));
        assert(postfix_at(s, mid) == done(right, end - 1));
        assert(concatenation_at(s, mid) == done(right, end));
        assert(alternation_at(s, mid) == done(right, end));
        assert(concatenation_at(s, i + 1) == done(re, end));
        assert(alternation_at(s, i + 1) == done(re, end));
        assert(atom_at(s, i) == done(re, end));
    } else {
        lemma_quantified_atom_reads_back(s, i, re);
    }
}

/// The text of a plain choice or sequence, followed by `)` and then by
/// neither `|` nor `)`, is read by the atom rule as that tree, and the rule
/// stops after the `)` that follows the text.
proof fn lemma_plain_pair_reads_back(s: Seq<u8>, i: int, re: Re)
    requires
        is_plain_pair(re),
        stands_at(s, i, printed(re)),
        i + printed(re).len() < s.len(),
        s[i + printed(re).len()] == CLOSE,
        !separator_at(s, i + printed(re).len() + 1),
    ensures
        atom_at(s, i) == done(re, i + printed(re).len() + 1),
{
    let end = i + printed(re).len();
    if re is Or {
        let left = tree_of(re->Or_0);
        let right = tree_of(re->Or_1);
        let bar = i + 1 + printed(left).len();
        let t2 = seq!['('] + printed(left);
        let t3 = t2 + seq!['|'];
        let t4 = t3 + printed(right);
        lemma_stands_at_parts(s, i, t4, seq![')']);
        lemma_stands_at_parts(s, i, t3, printed(right));
        lemma_stands_at_parts(s, i, t2, seq!['|']);
        lemma_stands_at_parts(s, i, seq!['('], printed(left));
        lemma_stands_at_one(s, i, '(');
        lemma_stands_at_one(s, bar, '|');
        lemma_stands_at_one(s, end - 1, ')');
        lemma_quantified_atom_reads_back(s, i + 1, left);
        lemma_quantified_atom_reads_back(s, bar + 1, right);
        assert(concatenation_at(s, i + 1) == done(left, bar));
        assert(postfix_at(s, bar + 1) == done(right, end - 1));
        assert(concatenation_at(s, bar + 1) == done(right, end));
        assert(alternation_at(s, bar + 1) == done(right, end + 1));
        assert(alternation_at(s, i + 1) == done(re, end + 1));
    } else {
        let left = tree_of(re->And_0);
        let right = tree_of(re->And_1);
        let mid = i + 1 + printed(left).len();
        let t2 = seq!['('] + printed(left);
        let t3 = t2 + printed(right);
        lemma_stands_at_parts(s, i, t3, seq![')']);
        lemma_stands_at_parts(s, i, t2, printed(right));
        lemma_stands_at_parts(s, i, seq!['('], printed(left));
        lemma_stands_at_one(s, i, '(');
        lemma_stands_at_one(s, end - 1, ')');
        assert(is_quantified_atom(right));
        lemma_printed_starts(right);
        assert(s[mid + 0] == printed(right)[0] as u8);
        lemma_plain_reads_back(s, i + 1, left);
        lemma_quantified_atom_reads_back(s, mid, right);
        assert(postfix_at(s, i + 1) == done(left, mid));
        assert(postfix_at(s, mid) == done(right, end - 1));
        assert(concatenation_at(s, mid) == done(right, end));
        assert(alternation_at(s, mid) == done(right, end + 1));
        assert(concatenation_at(s, i + 1) == done(re, end + 1));
        assert(alternation_at(s, i + 1) == done(re, end + 1));
    }
}

/// The text of a quantified group is read as that tree by the postfix rule
/// that starts after its first parenthesis, whatever follows the text: the
/// group inside takes the quantifier, and the rule stops at the end of the text.
pub proof fn lemma_quantified_group_reads_back(s: Seq<u8>, i: int, re: Re)
    requires
        is_quantified_group(re),
        stands_at(s, i, printed(re)),
    ensures
        postfix_at(s, i + 1) == done(re, i + printed(re).len()),
        0 <= i < s.len(),
        s[i] == OPEN,
        s[i + 1] == OPEN,
    decreases re,
{
    let inner = operand(re);
    let close = i + 1 + printed(inner).len();
    let head = seq!['('] + printed(inner);
    if re is Kleen {
        lemma_stands_at_parts(s, i, head, seq![')', '*']);
        assert(seq![')', '*'][0] == ')' && seq![')', '*'][1] == '*');
        assert(s[close + 0] == CLOSE && s[close + 1] == STAR);
    } else if re is OneOrMore {
        lemma_stands_at_parts(s, i, head, seq![')', '+']);
        assert(seq![')', '+'][0] == ')' && seq![')', '+'][1] == '+');
        assert(s[close + 0] == CLOSE && s[close + 1] == PLUS);
    } else {
        let t2 = head + seq![')', '{'];
        let t3 = t2 + decimal(re->Repeat_1 as nat);
        let t4 = t3 + seq![','];
        let t5 = t4 + decimal(re->Repeat_2 as nat);
        lemma_stands_at_parts(s, i, t5, seq!['}']);
        lemma_stands_at_parts(s, i, t4, decimal(re->Repeat_2 as nat));
        lemma_stands_at_parts(s, i, t3, seq![',']);
        lemma_stands_at_parts(s, i, t2, decimal(re->Repeat_1 as nat));
        lemma_stands_at_parts(s, i, head, seq![')', '{']);
        assert(seq![')', '{'][0] == ')' && seq![')', '{'][1] == '{');
        assert(s[close + 0] == CLOSE && s[close + 1] == BRACE_OPEN);
    }
    lemma_stands_at_parts(s, i, seq!['('], printed(inner));
    lemma_stands_at_one(s, i, '(');
    if is_plain_pair(inner) {
        lemma_printed_starts(inner);
        assert(s[i + 1 + 0] == printed(inner)[0] as u8);
        lemma_plain_pair_reads_back(s, i + 1, inner);
    } else {
        lemma_quantified_group_reads_back(s, i + 1, inner);
        assert(postfix_at(s, i + 2) == done(inner, close));
        assert(concatenation_at(s, i + 2) == done(inner, close + 1));
        assert(alternation_at(s, i + 2) == done(inner, close + 1));
        assert(atom_at(s, i + 1) == done(inner, close + 1));
    }
    lemma_quantifier_reads(s, i, i + 1, re);
}

/// The text of a right-leaning tree, followed by nothing but closing
/// parentheses, is read by the postfix rule as that tree; the rule stops at the
/// end of the text or further on, among those parentheses.
#[verifier::rlimit(40)]
pub proof fn lemma_right_leaning_reads_back(s: Seq<u8>, i: int, re: Re)
    requires
        is_right_leaning(re),
        stands_at(s, i, printed(re)),
        closing_run(s, i + printed(re).len()),
    ensures
        reads(postfix_at(s, i), re, i + printed(re).len(), s.len() as int),
    decreases re,
{
    let end = i + printed(re).len();
    let len = s.len() as int;
    if re is Or {
        let left = tree_of(re->Or_0);
        let right = tree_of(re->Or_1);
        let bar = i + 1 + printed(left).len();
        let t2 = seq!['('] + printed(left);
        let t3 = t2 + seq!['|'];
        let t4 = t3 + printed(right);
        lemma_stands_at_parts(s, i, t4, seq![')']);
        lemma_stands_at_parts(s, i, t3, printed(right));
        lemma_stands_at_parts(s, i, t2, seq!['|']);
        lemma_stands_at_parts(s, i, seq!['('], printed(left));
        lemma_stands_at_one(s, i, '(');
        lemma_stands_at_one(s, bar, '|');
        lemma_stands_at_one(s, end - 1, ')');
        assert(closing_run(s, end - 1));
        lemma_right_leaning_reads_back(s, bar + 1, right);
        assert(reads(postfix_at(s, bar + 1), right, end - 1, len));
        assert(reads(concatenation_at(s, bar + 1), right, end, len));
        assert(reads(alternation_at(s, bar + 1), right, end, len));
        if is_quantified_atom(left) {
            lemma_quantified_atom_reads_back(s, i + 1, left);
            assert(concatenation_at(s, i + 1) == done(left, bar));
            assert(reads(alternation_at(s, i + 1), re, end, len));
        } else {
            lemma_quantified_group_reads_back(s, i + 1, left);
            assert(concatenation_at(s, i + 2) == done(left, bar));
            assert(reads(alternation_at(s, i + 2), re, end, len));
            assert(reads(atom_at(s, i + 1), re, end, len));
            assert(reads(postfix_at(s, i + 1), re, end, len));
            assert(reads(concatenation_at(s, i + 1), re, end, len));
            assert(reads(alternation_at(s, i + 1), re, end, len));
        }
        assert(reads(atom_at(s, i), re, end, len));
    } else if re is And {
        let left = tree_of(re->And_0);
        let right = tree_of(re->And_1);
        let mid = i + 1 + printed(left).len();
        let t2 = seq!['('] + printed(left);
        let t3 = t2 + printed(right);
        lemma_stands_at_parts(s, i, t3, seq![')']);
        lemma_stands_at_parts(s, i, t2, printed(right));
        lemma_stands_at_parts(s, i, seq!['('], printed(left));
        lemma_stands_at_one(s, i, '(');
        lemma_stands_at_one(s, end - 1, ')');
        assert(closing_run(s, end - 1));
        lemma_right_leaning_starts(right);
        assert(s[mid + 0] == printed(right)[0] as u8);
        lemma_right_leaning_reads_back(s, mid, right);
        assert(reads(postfix_at(s, mid), right, end - 1, len));
        assert(reads(concatenation_at(s, mid), right, end, len));
        assert(reads(alternation_at(s, mid), right, end, len));
        if is_plain(left) {
            lemma_plain_reads_back(s, i + 1, left);
            assert(postfix_at(s, i + 1) == done(left, mid));
            assert(reads(concatenation_at(s, i + 1), re, end, len));
        } else {
            lemma_quantified_group_reads_back(s, i + 1, left);
            assert(postfix_at(s, i + 2) == done(left, mid));
            assert(reads(concatenation_at(s, i + 2), re, end, len));
            assert(reads(alternation_at(s, i + 2), re, end, len));
            assert(reads(atom_at(s, i + 1), re, end, len));
            assert(reads(postfix_at(s, i + 1), re, end, len));
            assert(reads(concatenation_at(s, i + 1), re, end, len));
        }
        assert(reads(alternation_at(s, i + 1), re, end, len));
        assert(reads(atom_at(s, i), re, end, len));
    } else if is_quantified_atom(re) {
        lemma_quantified_atom_reads_back(s, i, re);
    } else {
        lemma_quantified_group_reads_back(s, i, re);
        assert(reads(concatenation_at(s, i + 1), re, end, len));
        assert(reads(alternation_at(s, i + 1), re, end, len));
        assert(reads(atom_at(s, i), re, end, len));
    }
}

/// The text of a right-leaning tree starts with a literal, `.` or `(`.
proof fn lemma_right_leaning_starts(re: Re)
    requires
        is_right_leaning(re),
    ensures
        printed(re).len() >= 1,
        printed(re)[0] as u8 == OPEN || printed(re)[0] as u8 == DOT || is_alnum(
            printed(re)[0] as u8,
        ),
{
    assert(re is Char ==> is_quantified_atom(re));
    lemma_printed_starts(re);
}

/// Every literal of a quantified atom is one that the grammar reads.
proof fn lemma_quantified_atom_literals(re: Re)
    requires
        is_quantified_atom(re),
    ensures
        has_plain_literals(re),
    decreases re,
{
    if !(re is Char || re is AnyChar) {
        lemma_quantified_atom_literals(operand(re));
    }
}

/// Every literal of a plain tree is one that the grammar reads.
proof fn lemma_plain_literals(re: Re)
    requires
        is_plain(re),
    ensures
        has_plain_literals(re),
    decreases re,
{
    if re is Or {
        lemma_quantified_atom_literals(tree_of(re->Or_0));
        lemma_quantified_atom_literals(tree_of(re->Or_1));
    } else if re is And {
        lemma_plain_literals(tree_of(re->And_0));
        lemma_quantified_atom_literals(tree_of(re->And_1));
    } else {
        lemma_quantified_atom_literals(re);
    }
}

/// Every literal of a quantified group is one that the grammar reads.
proof fn lemma_quantified_group_literals(re: Re)
    requires
        is_quantified_group(re),
    ensures
        has_plain_literals(re),
    decreases re,
{
    if is_plain_pair(operand(re)) {
        lemma_plain_literals(operand(re));
    } else {
        lemma_quantified_group_literals(operand(re));
    }
}

/// Every literal of a right-leaning tree is one that the grammar reads.
proof fn lemma_right_leaning_literals(re: Re)
    requires
        is_right_leaning(re),
    ensures
        has_plain_literals(re),
    decreases re,
{
    if re is Or {
        let left = tree_of(re->Or_0);
        if is_quantified_atom(left) {
            lemma_quantified_atom_literals(left);
        } else {
            lemma_quantified_group_literals(left);
        }
        lemma_right_leaning_literals(tree_of(re->Or_1));
    } else if re is And {
        let left = tree_of(re->And_0);
        if is_plain(left) {
            lemma_plain_literals(left);
        } else {
            lemma_quantified_group_literals(left);
        }
        lemma_right_leaning_literals(tree_of(re->And_1));
    } else if is_quantified_atom(re) {
        lemma_quantified_atom_literals(re);
    } else {
        lemma_quantified_group_literals(re);
    }
}

/// Every character of `text` is ASCII.
pub open spec fn is_ascii_text(text: Seq<char>) -> bool {
    forall|k: int|
        0 <= k < text.len() ==> #[trigger] text[k] as u8 <= 0x7f && (text[k] as u8) as char
            == text[k]
}

/// Two ASCII texts make an ASCII text.
proof fn lemma_ascii_parts(head: Seq<char>, tail: Seq<char>)
    requires
        is_ascii_text(head),
        is_ascii_text(tail),
    ensures
        is_ascii_text(head + tail),
{
    let whole = head + tail;
    assert forall|k: int| 0 <= k < whole.len() implies #[trigger] whole[k] as u8 <= 0x7f && (
    whole[k] as u8) as char == whole[k] by {
        if k < head.len() {
            assert(whole[k] == head[k]);
        } else {
            assert(whole[k] == tail[k - head.len()]);
        }
    }
}

/// The text of a number is ASCII.
proof fn lemma_decimal_is_ascii(n: nat)
    ensures
        is_ascii_text(decimal(n)),
    decreases n,
{
    if n >= 10 {
        lemma_decimal_is_ascii(n / 10);
    }
}

/// The canonical text of a tree is ASCII where its literals are.
pub proof fn lemma_printed_is_ascii(re: Re)
    requires
        has_plain_literals(re),
    ensures
        is_ascii_text(printed(re)),
    decreases re,
{
    if re is Char || re is AnyChar {
    } else if re is Or {
        let left = tree_of(re->Or_0);
        let right = tree_of(re->Or_1);
        lemma_printed_is_ascii(left);
        lemma_printed_is_ascii(right);
        let t2 = seq!['('] + printed(left);
        let t3 = t2 + seq!['|'];
        let t4 = t3 + printed(right);
        lemma_ascii_parts(seq!['('], printed(left));
        lemma_ascii_parts(t2, seq!['|']);
        lemma_ascii_parts(t3, printed(right));
        lemma_ascii_parts(t4, seq![')']);
    } else if re is And {
        let left = tree_of(re->And_0);
        let right = tree_of(re->And_1);
        lemma_printed_is_ascii(left);
        lemma_printed_is_ascii(right);
        let t2 = seq!['('] + printed(left);
        let t3 = t2 + printed(right);
        lemma_ascii_parts(seq!['('], printed(left));
        lemma_ascii_parts(t2, printed(right));
        lemma_ascii_parts(t3, seq![')']);
    } else if re is Kleen {
        let inner = tree_of(re->Kleen_0);
        lemma_printed_is_ascii(inner);
        lemma_ascii_parts(seq!['('], printed(inner));
        lemma_ascii_parts(seq!['('] + printed(inner), seq![')', '*']);
    } else if re is OneOrMore {
        let inner = tree_of(re->OneOrMore_0);
        lemma_printed_is_ascii(inner);
        lemma_ascii_parts(seq!['('], printed(inner));
        lemma_ascii_parts(seq!['('] + printed(inner), seq![')', '+']);
    } else {
        let inner = tree_of(re->Repeat_0);
        let min = decimal(re->Repeat_1 as nat);
        let max = decimal(re->Repeat_2 as nat);
        lemma_printed_is_ascii(inner);
        lemma_decimal_is_ascii(re->Repeat_1 as nat);
        lemma_decimal_is_ascii(re->Repeat_2 as nat);
        let t1 = seq!['('] + printed(inner);
        let t2 = t1 + seq![')', '{'];
        let t3 = t2 + min;
        let t4 = t3 + seq![','];
        let t5 = t4 + max;
        lemma_ascii_parts(seq!['('], printed(inner));
        lemma_ascii_parts(t1, seq![')', '{']);
        lemma_ascii_parts(t2, min);
        lemma_ascii_parts(t3, seq![',']);
        lemma_ascii_parts(t4, max);
        lemma_ascii_parts(t5, seq!['}']);
    }
}

/// Printing a right-leaning tree and parsing the text gives the tree back, so
/// printing once more gives the same text.
pub proof fn lemma_right_leaning_round_trip(re: Re)
    requires
        is_right_leaning(re),
    ensures
        regexp_of(bytes_of(printed(re))) == Ok::<Re, Failure>(re),
        regexp_of(bytes_of(printed(re))) matches Ok(again) && printed(again) == printed(re),
{
    let s = bytes_of(printed(re));
    lemma_right_leaning_literals(re);
    lemma_printed_is_ascii(re);
    assert(all_ascii(s));
    assert(stands_at(s, 0, printed(re)));
    lemma_right_leaning_reads_back(s, 0, re);
    assert(concatenation_at(s, 0) == done(re, s.len() as int));
    assert(alternation_at(s, 0) == done(re, s.len() as int));
}

/// Neither `(` nor `)` occurs in `s`.
pub open spec fn group_free(s: Seq<u8>) -> bool {
    forall|k: int| 0 <= k < s.len() ==> #[trigger] s[k] != OPEN && s[k] != CLOSE
}

/// In a pattern without parentheses, a postfix term is a quantified atom, a
/// sequence stops at the end or before a `|`, a choice stops at the end, and
/// both are right-leaning.
pub proof fn lemma_group_free_rules(s: Seq<u8>, i: int)
    requires
        group_free(s),
    ensures
        postfix_at(s, i) matches Ok((re, _)) ==> is_quantified_atom(re),
        concatenation_at(s, i) matches Ok((re, next)) ==> is_right_leaning(re) && (next == s.len()
            || (s[next] == BAR && is_quantified_atom(re))),
        alternation_at(s, i) matches Ok((re, next)) ==> is_right_leaning(re) && next == s.len(),
    decreases s.len() - i,
{
    if 0 <= i < s.len() {
        lemma_rules_advance(s, i);
        if let Ok((atom, open)) = atom_at(s, i) {
            assert(is_quantified_atom(atom));
            assert(is_quantified_atom(Re::Kleen(Rc::new(atom))));
            assert(is_quantified_atom(Re::OneOrMore(Rc::new(atom))));
            if let Ok((re, _)) = repeat_at(s, atom, open) {
                assert(is_quantified_atom(re));
            }
        }
        if let Ok((left, next)) = postfix_at(s, i) {
            assert(is_quantified_atom(left));
            assert(is_plain(left));
            assert(is_right_leaning(left));
            if next < s.len() {
                lemma_group_free_rules(s, next);
                if let Ok((right, _)) = alternation_at(s, next) {
                    assert(is_right_leaning(Re::And(Rc::new(left), Rc::new(right))));
                }
            }
        }
        if let Ok((left, next)) = concatenation_at(s, i) {
            if next < s.len() {
                lemma_group_free_rules(s, next + 1);
                if let Ok((right, _)) = alternation_at(s, next + 1) {
                    assert(is_quantified_atom(left) ==> is_right_leaning(
                        Re::Or(Rc::new(left), Rc::new(right)),
                    ));
                }
            }
        }
    }
}

/// Where a pattern without parentheses parses, printing its tree, parsing
/// that text and printing again gives the same text: the second parse
/// rebuilds the tree.
pub proof fn lemma_group_free_round_trip(s: Seq<u8>)
    requires
        group_free(s),
        regexp_of(s) is Ok,
    ensures
        regexp_of(bytes_of(printed(regexp_of(s)->Ok_0))) == regexp_of(s),
{
    lemma_group_free_rules(s, 0);
    lemma_right_leaning_round_trip(regexp_of(s)->Ok_0);
}

} // verus!
