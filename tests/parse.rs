use regex_parser::ast::PSQ;
use regex_parser::parser::{fold_or, parse_escape, parse_plus_star_question};
use regex_parser::{parse, ParserError, AST};

fn ch(c: char) -> AST {
    AST::Char(c)
}

fn cat(items: Vec<AST>) -> AST {
    AST::Sequence(items)
}

fn plus(a: AST) -> AST {
    AST::Plus(Box::new(a))
}

fn star(a: AST) -> AST {
    AST::Star(Box::new(a))
}

fn question(a: AST) -> AST {
    AST::Question(Box::new(a))
}

fn or(a: AST, b: AST) -> AST {
    AST::Or(Box::new(a), Box::new(b))
}

#[test]
fn empty_pattern_is_empty() {
    assert_eq!(parse(""), Err(ParserError::Empty));
}

#[test]
fn literal_pattern_is_sequence_of_chars() {
    assert_eq!(parse("abc"), Ok(cat(vec![ch('a'), ch('b'), ch('c')])));
    assert_eq!(parse("x"), Ok(cat(vec![ch('x')])));
    assert_eq!(parse("日本語"), Ok(cat(vec![ch('日'), ch('本'), ch('語')])));
}

#[test]
fn plus_wraps_previous_char() {
    assert_eq!(parse("a+"), Ok(cat(vec![plus(ch('a'))])));
    assert_eq!(parse("ab+"), Ok(cat(vec![ch('a'), plus(ch('b'))])));
}

#[test]
fn star_and_question_wrap_previous_char() {
    assert_eq!(parse("a*"), Ok(cat(vec![star(ch('a'))])));
    assert_eq!(parse("a?"), Ok(cat(vec![question(ch('a'))])));
    assert_eq!(parse("a+?"), Ok(cat(vec![question(plus(ch('a')))])));
}

#[test]
fn quantifier_without_operand_is_no_prev() {
    assert_eq!(parse("+"), Err(ParserError::NoPrev(0)));
    assert_eq!(parse("*a"), Err(ParserError::NoPrev(0)));
    assert_eq!(parse("?"), Err(ParserError::NoPrev(0)));
    assert_eq!(parse("+?"), Err(ParserError::NoPrev(0)));
    assert_eq!(parse("a|+"), Err(ParserError::NoPrev(2)));
    assert_eq!(parse("(|+)"), Err(ParserError::NoPrev(1)));
}

#[test]
fn bar_without_left_side_is_no_prev() {
    assert_eq!(parse("|a"), Err(ParserError::NoPrev(0)));
    assert_eq!(parse("a||b"), Err(ParserError::NoPrev(2)));
}

#[test]
fn unclosed_group_is_no_right_paren() {
    assert_eq!(parse("("), Err(ParserError::NoRightParen));
    assert_eq!(parse("(a"), Err(ParserError::NoRightParen));
    assert_eq!(parse("((a)"), Err(ParserError::NoRightParen));
}

#[test]
fn unopened_group_is_invalid_right_paren() {
    assert_eq!(parse(")"), Err(ParserError::InvalidRightParen(0)));
    assert_eq!(parse("a)"), Err(ParserError::InvalidRightParen(1)));
    assert_eq!(parse("(a))"), Err(ParserError::InvalidRightParen(3)));
}

#[test]
fn alternation_nests_to_the_right() {
    assert_eq!(
        parse("a|b|c"),
        Ok(or(cat(vec![ch('a')]), or(cat(vec![ch('b')]), cat(vec![ch('c')]))))
    );
    assert_eq!(parse("ab|c"), Ok(or(cat(vec![ch('a'), ch('b')]), cat(vec![ch('c')]))));
}

#[test]
fn trailing_bar_keeps_single_alternative() {
    assert_eq!(parse("a|"), Ok(cat(vec![ch('a')])));
}

#[test]
fn escaped_metacharacter_is_literal() {
    assert_eq!(parse("\\+"), Ok(cat(vec![ch('+')])));
    assert_eq!(
        parse("\\\\\\*\\?\\|\\(\\)"),
        Ok(cat(vec![ch('\\'), ch('*'), ch('?'), ch('|'), ch('('), ch(')')]))
    );
}

#[test]
fn escaped_ordinary_char_is_invalid_escape() {
    assert_eq!(parse("\\n"), Err(ParserError::InvalidEscape(1, 'n')));
    assert_eq!(parse("ab\\c"), Err(ParserError::InvalidEscape(3, 'c')));
}

#[test]
fn positions_count_characters_not_bytes() {
    assert_eq!(parse("é\\q"), Err(ParserError::InvalidEscape(2, 'q')));
    assert_eq!(parse("日本)"), Err(ParserError::InvalidRightParen(2)));
}

#[test]
fn trailing_backslash_adds_nothing() {
    assert_eq!(parse("a\\"), Ok(cat(vec![ch('a')])));
    assert_eq!(parse("\\"), Err(ParserError::Empty));
}

#[test]
fn parse_is_deterministic() {
    for p in ["", "abc", "a|b|c", "(ab)+", "a(b|c)*d", "\\n", "((a)"] {
        assert_eq!(parse(p), parse(p));
    }
}

#[test]
fn quantified_group_wraps_folded_content() {
    assert_eq!(parse("(ab)+"), Ok(cat(vec![plus(cat(vec![ch('a'), ch('b')]))])));
}

#[test]
fn group_with_alternation_is_quantified_as_a_whole() {
    assert_eq!(
        parse("a(b|c)*d"),
        Ok(cat(vec![ch('a'), star(or(cat(vec![ch('b')]), cat(vec![ch('c')]))), ch('d')]))
    );
}

#[test]
fn alternation_outside_group_is_restored_after_it() {
    assert_eq!(
        parse("a|(b)c"),
        Ok(or(cat(vec![ch('a')]), cat(vec![cat(vec![ch('b')]), ch('c')])))
    );
}

// An empty group contributes no node. The behaviour follows from folding an
// empty list of alternatives; no other source confirms it, so these tests
// record it rather than declare it right.
#[test]
fn empty_group_contributes_nothing() {
    assert_eq!(parse("a()"), Ok(cat(vec![ch('a')])));
    assert_eq!(parse("()"), Err(ParserError::Empty));
    assert_eq!(parse("()+"), Err(ParserError::NoPrev(2)));
}

#[test]
fn escape_accepts_only_metacharacters() {
    for c in ['\\', '+', '*', '?', '|', '(', ')'] {
        assert_eq!(parse_escape(4, c), Ok(ch(c)));
    }
    assert_eq!(parse_escape(4, 'a'), Err(ParserError::InvalidEscape(4, 'a')));
}

#[test]
fn quantifier_on_empty_sequence_leaves_it_unchanged() {
    let mut seq: Vec<AST> = Vec::new();
    assert_eq!(parse_plus_star_question(&mut seq, PSQ::Star, 5), Err(ParserError::NoPrev(5)));
    assert!(seq.is_empty());
    let mut seq = vec![ch('a'), ch('b')];
    assert_eq!(parse_plus_star_question(&mut seq, PSQ::Question, 2), Ok(()));
    assert_eq!(seq, vec![ch('a'), question(ch('b'))]);
}

#[test]
fn fold_or_nests_alternatives_to_the_right() {
    assert_eq!(fold_or(Vec::new()), None);
    assert_eq!(fold_or(vec![ch('a')]), Some(ch('a')));
    assert_eq!(
        fold_or(vec![ch('a'), ch('b'), ch('c'), ch('d')]),
        Some(or(ch('a'), or(ch('b'), or(ch('c'), ch('d')))))
    );
}
