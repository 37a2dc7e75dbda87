use regexp::error::ReErrorKind;
use regexp::number::parse_number;
use regexp::parser::{first_non_ascii, parse_and, parse_atom, parse_or, parse_postfix};
use regexp::pattern::Re;
use std::rc::Rc;

#[test]
fn parse_integer() {
    let string = "abcdd12344,.88_".as_bytes();

    assert_eq!(parse_number(string, 4), None);
    assert_eq!(parse_number(string, 5), Some((12344, 10)));
    assert_eq!(parse_number(string, 12), Some((88, 14)));
    assert_eq!(parse_number(string, 15), None);
}

#[test]
fn is_string_ascii() {
    assert_eq!(first_non_ascii("salut! Comment ca va?".as_bytes()), None);
    assert_eq!(first_non_ascii("salut! Comment \u{c3}\u{a7}a va?".as_bytes()), Some(15));
}

#[test]
fn atom_parsing() {
    let string = "a._?".as_bytes();

    match parse_atom(string, 0) {
        Ok((reg, index)) => {
            assert_eq!(index, 1);
            assert!(reg.is_equal(&Re::Char('a')))
        }
        Err(_) => assert!(false),
    }

    match parse_atom(string, 1) {
        Ok((reg, index)) => {
            assert_eq!(index, 2);
            assert!(reg.is_equal(&Re::AnyChar))
        }
        Err(_) => assert!(false),
    }

    match parse_atom(string, 3) {
        Ok(_) => assert!(false),
        Err(_) => (),
    }
}

#[test]
fn reg_equality() {
    let reg1 = Re::AnyChar;
    let reg2 = Re::Kleen(std::rc::Rc::from(Re::AnyChar));

    assert!(reg1.is_equal(&reg1));
    assert!(!reg1.is_equal(&reg2));
}

#[test]
fn postfix_parsing() {
    let string = "a{22,144}a{144,22}aa+*b".as_bytes();

    match parse_postfix(string, 0) {
        Err(_) => assert!(false),
        Ok((reg, index)) => {
            assert_eq!(index, 9);
            let r = Re::Repeat(std::rc::Rc::from(Re::Char('a')), 22, 144);
            assert!(reg.is_equal(&r));
        }
    }

    match parse_postfix(string, 9) {
        Err((err_kind, _)) => {
            assert!(matches!(err_kind, ReErrorKind::InvalidRange));
        }
        Ok(_) => assert!(false),
    }
}

#[test]
fn and_parsing() {}

fn lit(c: char) -> Rc<Re> {
    Rc::new(Re::Char(c))
}

fn parsed(text: &str) -> Re {
    match Re::parse_regexp(text) {
        Ok(re) => re,
        Err((kind, info)) => panic!("{:?} at {}: {}", kind, info.at, info.msg),
    }
}

fn rejected(text: &str) -> (ReErrorKind, usize, String) {
    match Re::parse_regexp(text) {
        Ok(re) => panic!("parsed as {}", re.debug_print()),
        Err((kind, info)) => (kind, info.at, info.msg),
    }
}

#[test]
fn single_atoms() {
    assert!(parsed("a").is_equal(&Re::Char('a')));
    assert!(parsed(".").is_equal(&Re::AnyChar));
    assert!(parsed("Z").is_equal(&Re::Char('Z')));
    assert!(parsed("7").is_equal(&Re::Char('7')));
}

#[test]
fn choice_of_two() {
    assert!(parsed("a|b").is_equal(&Re::Or(lit('a'), lit('b'))));
}

#[test]
fn choice_nests_to_the_right() {
    let expected = Re::Or(lit('a'), Rc::new(Re::Or(lit('b'), lit('c'))));
    assert!(parsed("a|b|c").is_equal(&expected));
}

#[test]
fn sequence_of_two() {
    assert!(parsed("ab").is_equal(&Re::And(lit('a'), lit('b'))));
}

#[test]
fn sequence_nests_to_the_right() {
    let expected = Re::And(lit('a'), Rc::new(Re::And(lit('b'), lit('c'))));
    assert!(parsed("abc").is_equal(&expected));
}

#[test]
fn sequence_binds_tighter_on_the_left_only() {
    let expected = Re::And(lit('a'), Rc::new(Re::Or(lit('b'), lit('c'))));
    assert!(parsed("ab|c").is_equal(&expected));
}

#[test]
fn star_and_plus() {
    assert!(parsed("a*").is_equal(&Re::Kleen(lit('a'))));
    assert!(parsed("a+").is_equal(&Re::OneOrMore(lit('a'))));
}

#[test]
fn bounded_repeat() {
    assert!(parsed("a{2,5}").is_equal(&Re::Repeat(lit('a'), 2, 5)));
    assert!(parsed("a{3,3}").is_equal(&Re::Repeat(lit('a'), 3, 3)));
    assert!(parsed("a{007,10}").is_equal(&Re::Repeat(lit('a'), 7, 10)));
}

#[test]
fn bounded_repeat_out_of_order() {
    let (kind, at, msg) = rejected("a{5,2}");
    assert!(matches!(kind, ReErrorKind::InvalidRange));
    assert_eq!(at, 1);
    assert_eq!(msg, "left number should be lower than or equal to the right one");
}

#[test]
fn bounded_repeat_without_closing_brace() {
    let (kind, at, msg) = rejected("a{2,5");
    assert!(matches!(kind, ReErrorKind::InvalidChar));
    assert_eq!(at, 3);
    assert_eq!(msg, "Expected a '}'");
}

#[test]
fn bounded_repeat_without_comma() {
    let (kind, at, msg) = rejected("a{2 5}");
    assert!(matches!(kind, ReErrorKind::OutOfRange));
    assert_eq!(at, 1);
    assert_eq!(msg, "Expected a ',' for postfix [reg]{a,b}");
}

#[test]
fn bounded_repeat_without_numbers() {
    let (kind, at, msg) = rejected("a{,5}");
    assert!(matches!(kind, ReErrorKind::InvalidInt));
    assert_eq!(at, 2);
    assert_eq!(msg, "Expected a positive integer");

    let (kind, at, _) = rejected("a{2,}");
    assert!(matches!(kind, ReErrorKind::InvalidInt));
    assert_eq!(at, 3);
}

#[test]
fn bounded_repeat_number_too_large() {
    let (kind, at, _) = rejected("a{99999999999999999999999999999999999999999,5}");
    assert!(matches!(kind, ReErrorKind::InvalidInt));
    assert_eq!(at, 2);
}

#[test]
fn group_then_star_then_literal() {
    let expected = Re::And(
        Rc::new(Re::Kleen(Rc::new(Re::Or(lit('a'), lit('b'))))),
        lit('a'),
    );
    assert!(parsed("(a|b)*a").is_equal(&expected));
}

#[test]
fn empty_pattern() {
    let (kind, at, msg) = rejected("");
    assert!(matches!(kind, ReErrorKind::OutOfRange));
    assert_eq!(at, 0);
    assert_eq!(msg, "Expected an atom");
}

#[test]
fn unsupported_byte() {
    let (kind, at, msg) = rejected("a_");
    assert!(matches!(kind, ReErrorKind::InvalidChar));
    assert_eq!(at, 1);
    assert_eq!(msg, "Expected a char in [a-zA-Z0-9]");
}

#[test]
fn non_ascii_is_rejected_at_its_first_byte() {
    let (kind, at, msg) = rejected("ab\u{e9}c\u{e8}");
    assert!(matches!(kind, ReErrorKind::NonAsciiChar));
    assert_eq!(at, 2);
    assert_eq!(msg, "");

    let (kind, at, _) = rejected("\u{e9}{");
    assert!(matches!(kind, ReErrorKind::NonAsciiChar));
    assert_eq!(at, 0);
}

#[test]
fn trailing_bytes_are_not_read() {
    assert!(parsed("a)_").is_equal(&Re::Char('a')));
    assert!(parsed("a*))b").is_equal(&Re::Kleen(lit('a'))));
    let (kind, at, _) = rejected("a*_");
    assert!(matches!(kind, ReErrorKind::InvalidChar));
    assert_eq!(at, 2);
}

#[test]
fn rules_report_where_they_stop() {
    let string = "(a|b)*a".as_bytes();
    match parse_atom(string, 0) {
        Ok((reg, index)) => {
            assert_eq!(index, 5);
            assert!(reg.is_equal(&Re::Or(lit('a'), lit('b'))));
        }
        Err(_) => assert!(false),
    }
    match parse_and(string, 1) {
        Ok((reg, index)) => {
            assert_eq!(index, 2);
            assert!(reg.is_equal(&Re::Char('a')));
        }
        Err(_) => assert!(false),
    }
    match parse_or(string, 3) {
        Ok((reg, index)) => {
            assert_eq!(index, 5);
            assert!(reg.is_equal(&Re::Char('b')));
        }
        Err(_) => assert!(false),
    }
    match parse_or(string, 7) {
        Ok(_) => assert!(false),
        Err((kind, info)) => {
            assert!(matches!(kind, ReErrorKind::OutOfRange));
            assert_eq!(info.at, 7);
        }
    }
}

#[test]
fn number_limits() {
    let max = usize::MAX.to_string();
    assert_eq!(parse_number(max.as_bytes(), 0), Some((usize::MAX, max.len())));
    let mut over = max.clone();
    over.push('0');
    assert_eq!(parse_number(over.as_bytes(), 0), None);
    let mut next = String::from("0000");
    next.push_str(&max);
    assert_eq!(parse_number(next.as_bytes(), 0), Some((usize::MAX, next.len())));
    assert_eq!(parse_number("7".as_bytes(), 9), None);
    assert_eq!(parse_number("0".as_bytes(), 0), Some((0, 1)));
}

#[test]
fn equality_is_reflexive_and_symmetric() {
    let a = parsed("(a|b)*a{2,3}");
    let b = parsed("(a|b)*a{2,3}");
    let c = parsed("(a|b)*a{2,4}");
    assert!(a.is_equal(&a));
    assert!(a.is_equal(&b));
    assert!(b.is_equal(&a));
    assert!(!a.is_equal(&c));
    assert!(!c.is_equal(&a));
    assert!(!Re::Or(lit('a'), lit('b')).is_equal(&Re::And(lit('a'), lit('b'))));
    assert!(!Re::Kleen(lit('a')).is_equal(&Re::OneOrMore(lit('a'))));
    assert!(!Re::Char('a').is_equal(&Re::Char('b')));
}

#[test]
fn canonical_text() {
    assert_eq!(Re::Char('a').debug_print(), "a");
    assert_eq!(Re::AnyChar.debug_print(), ".");
    assert_eq!(Re::Or(lit('a'), lit('b')).debug_print(), "(a|b)");
    assert_eq!(Re::And(lit('a'), lit('b')).debug_print(), "(ab)");
    assert_eq!(Re::Kleen(lit('a')).debug_print(), "(a)*");
    assert_eq!(Re::OneOrMore(lit('a')).debug_print(), "(a)+");
    assert_eq!(Re::Repeat(lit('a'), 0, 1205).debug_print(), "(a){0,1205}");
    assert_eq!(parsed("(a|b)*a").debug_print(), "(((a|b))*a)");
}

#[test]
fn canonical_text_is_appended() {
    let mut out = String::from("re: ");
    Re::Repeat(lit('x'), 10, 99).print_into(&mut out);
    assert_eq!(out, "re: (x){10,99}");
}

#[test]
fn canonical_text_parses_back() {
    for text in ["a", "a|b", "ab", "a*", "a+", "a{2,5}", "(a|b)*a", "a.b|c+d{1,2}"] {
        let first = parsed(text).debug_print();
        let again = parsed(&first).debug_print();
        assert_eq!(first, again);
    }
}

#[test]
fn matcher_placeholder() {
    assert_eq!(Re::AnyChar.match_one("abc"), "Nothing");
}

#[test]
fn right_leaning_trees_parse_back_to_themselves() {
    let trees = [
        Re::Char('a'),
        Re::Kleen(Rc::new(Re::OneOrMore(Rc::new(Re::Repeat(lit('a'), 0, 12))))),
        Re::Or(lit('a'), Rc::new(Re::Or(lit('b'), lit('c')))),
        Re::And(Rc::new(Re::Kleen(Rc::new(Re::Or(lit('a'), lit('b'))))), lit('a')),
        Re::Repeat(
            Rc::new(Re::OneOrMore(Rc::new(Re::And(Rc::new(Re::And(lit('a'), lit('b'))), lit('c'))))),
            2,
            40,
        ),
        Re::Or(
            Rc::new(Re::Kleen(Rc::new(Re::Or(lit('x'), lit('y'))))),
            Rc::new(Re::And(Rc::new(Re::OneOrMore(Rc::new(Re::And(lit('p'), lit('q'))))), lit('z'))),
        ),
        Re::And(
            Rc::new(Re::And(Rc::new(Re::Or(lit('a'), lit('b'))), lit('c'))),
            Rc::new(Re::Or(Rc::new(Re::AnyChar), Rc::new(Re::And(lit('d'), lit('e'))))),
        ),
    ];
    for tree in trees.iter() {
        let text = tree.debug_print();
        let again = parsed(&text);
        assert!(again.is_equal(tree));
        assert_eq!(again.debug_print(), text);
    }
}

#[test]
fn patterns_without_groups_print_the_same_after_parsing_back() {
    for text in ["a", "abc", "a|b|c", "ab|cd", "a*b+|c{1,2}d|.", "a{0,0}"] {
        let first = parsed(text);
        let again = parsed(&first.debug_print());
        assert!(again.is_equal(&first));
    }
    assert_eq!(parsed("ab|cd").debug_print(), "(a(b|(cd)))");
}

#[test]
fn starred_group_prints_the_same_after_parsing_back() {
    let first = parsed("(a|b)*a");
    let text = first.debug_print();
    assert_eq!(text, "(((a|b))*a)");
    let again = parsed(&text);
    assert!(again.is_equal(&first));
    assert_eq!(again.debug_print(), text);
}

#[test]
fn left_nested_choice_is_regrouped_when_parsed_back() {
    let tree = parsed("((a|b))|c");
    assert!(tree.is_equal(&Re::Or(Rc::new(Re::Or(lit('a'), lit('b'))), lit('c'))));
    let text = tree.debug_print();
    assert_eq!(text, "((a|b)|c)");
    let again = parsed(&text);
    assert!(again.is_equal(&Re::Or(lit('a'), Rc::new(Re::Or(lit('b'), lit('c'))))));
    assert_eq!(again.debug_print(), "(a|(b|c))");
}

#[test]
fn same_pattern_parsed_twice_gives_equal_trees() {
    for text in ["a", "(a|b)*a", "a{2,5}b+", "x|y|z"] {
        assert!(parsed(text).is_equal(&parsed(text)));
    }
}

#[test]
fn parsed_repeats_have_bounds_in_order() {
    match parsed("a{3,7}") {
        Re::Repeat(_, min, max) => assert!(min <= max),
        _ => assert!(false),
    }
}
