//! The syntax tree of a pattern, its structural equality and its canonical text.

use crate::number::{decimal, push_char, push_decimal};
use std::rc::Rc;
use vstd::prelude::*;

verus! {

/// A parsed pattern.
pub enum Re {
    /// Exactly this character.
    Char(char),
    /// Either branch.
    Or(Rc<Re>, Rc<Re>),
    /// The left pattern, then the right one.
    And(Rc<Re>, Rc<Re>),
    /// Zero or more repetitions.
    Kleen(Rc<Re>),
    /// One or more repetitions.
    OneOrMore(Rc<Re>),
    /// Between `min` and `max` repetitions, both included.
    Repeat(Rc<Re>, usize, usize),
    /// Any single character.
    AnyChar,
}

/// The tree that a shared child holds.
pub open spec fn tree_of(child: Rc<Re>) -> Re {
    *child
}

/// Every bounded repetition in the tree has its bounds in order.
pub open spec fn well_formed(re: Re) -> bool
    decreases re,
{
    match re {
        Re::Char(_) => true,
        Re::AnyChar => true,
        Re::Or(l, r) => well_formed(*l) && well_formed(*r),
        Re::And(l, r) => well_formed(*l) && well_formed(*r),
        Re::Kleen(c) => well_formed(*c),
        Re::OneOrMore(c) => well_formed(*c),
        Re::Repeat(c, min, max) => min <= max && well_formed(*c),
    }
}

/// Two trees have the same shape and the same payloads, node by node.
pub open spec fn same_tree(a: Re, b: Re) -> bool
    decreases a,
{
    match (a, b) {
        (Re::Char(c1), Re::Char(c2)) => c1 == c2,
        (Re::AnyChar, Re::AnyChar) => true,
        (Re::Or(l1, r1), Re::Or(l2, r2)) => same_tree(*l1, *l2) && same_tree(*r1, *r2),
        (Re::And(l1, r1), Re::And(l2, r2)) => same_tree(*l1, *l2) && same_tree(*r1, *r2),
        (Re::Kleen(c1), Re::Kleen(c2)) => same_tree(*c1, *c2),
        (Re::OneOrMore(c1), Re::OneOrMore(c2)) => same_tree(*c1, *c2),
        (Re::Repeat(c1, min1, max1), Re::Repeat(c2, min2, max2)) => same_tree(*c1, *c2) && min1
            == min2 && max1 == max2,
        _ => false,
    }
}

/// Two trees have the same shape and payloads exactly when they are the same value.
pub proof fn lemma_same_tree_is_equality(a: Re, b: Re)
    ensures
        same_tree(a, b) <==> a == b,
    decreases a,
{
    if a is Or && b is Or {
        lemma_same_tree_is_equality(tree_of(a->Or_0), tree_of(b->Or_0));
        lemma_same_tree_is_equality(tree_of(a->Or_1), tree_of(b->Or_1));
    } else if a is And && b is And {
        lemma_same_tree_is_equality(tree_of(a->And_0), tree_of(b->And_0));
        lemma_same_tree_is_equality(tree_of(a->And_1), tree_of(b->And_1));
    } else if a is Kleen && b is Kleen {
        lemma_same_tree_is_equality(tree_of(a->Kleen_0), tree_of(b->Kleen_0));
    } else if a is OneOrMore && b is OneOrMore {
        lemma_same_tree_is_equality(tree_of(a->OneOrMore_0), tree_of(b->OneOrMore_0));
    } else if a is Repeat && b is Repeat {
        lemma_same_tree_is_equality(tree_of(a->Repeat_0), tree_of(b->Repeat_0));
    }
}

/// Every tree equals itself.
pub proof fn lemma_same_tree_reflexive(a: Re)
    ensures
        same_tree(a, a),
{
    lemma_same_tree_is_equality(a, a);
}

/// Equality does not depend on the order of its operands.
pub proof fn lemma_same_tree_symmetric(a: Re, b: Re)
    ensures
        same_tree(a, b) == same_tree(b, a),
{
    lemma_same_tree_is_equality(a, b);
    lemma_same_tree_is_equality(b, a);
}

/// `.` never equals a starred tree, whatever is starred: the variants are
/// told apart before any payload is read.
pub proof fn lemma_any_char_is_no_star(inner: Re)
    ensures
        !same_tree(Re::AnyChar, Re::Kleen(Rc::new(inner))),
        !same_tree(Re::Kleen(Rc::new(inner)), Re::AnyChar),
{
}

/// The canonical text of a tree: every compound node is parenthesized.
pub open spec fn printed(re: Re) -> Seq<char>
    decreases re,
{
    match re {
        Re::Char(c) => seq![c],
        Re::AnyChar => seq!['.'],
        Re::Or(l, r) => seq!['('] + printed(*l) + seq!['|'] + printed(*r) + seq![')'],
        Re::And(l, r) => seq!['('] + printed(*l) + printed(*r) + seq![')'],
        Re::Kleen(c) => seq!['('] + printed(*c) + seq![')', '*'],
        Re::OneOrMore(c) => seq!['('] + printed(*c) + seq![')', '+'],
        Re::Repeat(c, min, max) => seq!['('] + printed(*c) + seq![')', '{'] + decimal(min as nat)
            + seq![','] + decimal(max as nat) + seq!['}'],
    }
}

impl Re {
    /// The placeholder of a matcher: it reads neither the pattern nor the text.
    pub fn match_one(&self, string: &str) -> (found: String)
        ensures
            found@ == "Nothing"@,
    {
        "Nothing".to_owned()
    }

    /// Writes the canonical text of the tree at the end of `out`.
    pub fn print_into(&self, out: &mut String)
        ensures
            final(out)@ == old(out)@ + printed(*self),
        decreases *self,
    {
        let ghost before = out@;
        match self {
            Re::Char(c) => {
                push_char(out, *c);
            },
            Re::AnyChar => {
                push_char(out, '.');
            },
            Re::Or(l, r) => {
                push_char(out, '(');
                l.print_into(out);
                push_char(out, '|');
                r.print_into(out);
                push_char(out, ')');
            },
            Re::And(l, r) => {
                push_char(out, '(');
                l.print_into(out);
                r.print_into(out);
                push_char(out, ')');
            },
            Re::Kleen(c) => {
                push_char(out, '(');
                c.print_into(out);
                push_char(out, ')');
                push_char(out, '*');
            },
            Re::OneOrMore(c) => {
                push_char(out, '(');
                c.print_into(out);
                push_char(out, ')');
                push_char(out, '+');
            },
            Re::Repeat(c, min, max) => {
                push_char(out, '(');
                c.print_into(out);
                push_char(out, ')');
                push_char(out, '{');
                push_decimal(out, *min);
                push_char(out, ',');
                push_decimal(out, *max);
                push_char(out, '}');
            },
        }
        assert(out@ =~= before + printed(*self));
    }

    /// The canonical text of the tree.
    pub fn debug_print(&self) -> (text: String)
        ensures
            text@ == printed(*self),
    {
        let mut text = String::new();
        self.print_into(&mut text);
        assert(text@ =~= printed(*self));
        text
    }

    /// Deep structural comparison: sharing between sub-trees is never observed.
    pub fn is_equal(&self, other: &Self) -> (same: bool)
        ensures
            same == same_tree(*self, *other),
            same == (*self == *other),
        decreases *self,
    {
        match self {
            Re::Char(c1) => match other {
                Re::Char(c2) => *c1 == *c2,
                _ => false,
            },
            Re::Kleen(c1) => match other {
                Re::Kleen(c2) => c1.is_equal(c2),
                _ => false,
            },
            Re::Or(c11, c12) => match other {
                Re::Or(c21, c22) => c11.is_equal(c21) && c12.is_equal(c22),
                _ => false,
            },
            Re::And(c11, c12) => match other {
                Re::And(c21, c22) => c11.is_equal(c21) && c12.is_equal(c22),
                _ => false,
            },
            Re::OneOrMore(c1) => match other {
                Re::OneOrMore(c2) => c1.is_equal(c2),
                _ => false,
            },
            Re::AnyChar => match other {
                Re::AnyChar => true,
                _ => false,
            },
            Re::Repeat(c1, a1, b1) => match other {
                Re::Repeat(c2, a2, b2) => c1.is_equal(c2) && *a1 == *a2 && *b1 == *b2,
                _ => false,
            },
        }
    }
}

} // verus!
