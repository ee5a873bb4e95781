use risp::expr::{ParseError, RispErr, RispExp};
use risp::lexer::{is_whitespace_char, tokenize};
use risp::reader::{parse, parse_atom};

fn strings(xs: &[&str]) -> Vec<String> {
    xs.iter().map(|x| x.to_string()).collect()
}

#[test]
fn tokenize_splits_parens_and_spaces() {
    assert_eq!(tokenize("(+ 1 (foo  bar))".to_string()), strings(&["(", "+", "1", "(", "foo", "bar", ")", ")"]));
}

#[test]
fn tokenize_empty_and_blank() {
    assert!(tokenize(String::new()).is_empty());
    assert!(tokenize(" \t\n ".to_string()).is_empty());
}

#[test]
fn tokenize_glued_atoms() {
    assert_eq!(tokenize("a(b)c".to_string()), strings(&["a", "(", "b", ")", "c"]));
    assert_eq!(tokenize("x\u{3000}y\u{a0}z".to_string()), strings(&["x", "y", "z"]));
}

#[test]
fn whitespace_matches_std() {
    for c in ['\t', ' ', '\n', '\u{85}', '\u{2009}', 'a', '(', '\u{200b}', '\u{3000}'] {
        assert_eq!(is_whitespace_char(c), c.is_whitespace());
    }
}

#[test]
fn parse_atom_numbers_and_symbols() {
    assert_eq!(parse_atom("42"), RispExp::Number(42));
    assert_eq!(parse_atom("+7"), RispExp::Number(7));
    assert_eq!(parse_atom("-0"), RispExp::Number(0));
    assert_eq!(parse_atom("abc"), RispExp::Symbol("abc".to_string()));
    assert_eq!(parse_atom("-"), RispExp::Symbol("-".to_string()));
    assert_eq!(parse_atom("12a"), RispExp::Symbol("12a".to_string()));
    assert_eq!(parse_atom("2147483648"), RispExp::Symbol("2147483648".to_string()));
}

#[test]
fn parse_returns_remaining_tokens() {
    let tokens = strings(&["(", "a", "1", ")", "b", ")"]);
    let (e, rest) = parse(&tokens).unwrap();
    assert_eq!(
        e,
        RispExp::List(vec![RispExp::Symbol("a".to_string()), RispExp::Number(1)])
    );
    assert_eq!(rest, &tokens[4..]);
}

#[test]
fn parse_errors() {
    assert_eq!(parse(&[]).err(), Some(RispErr::Parse(ParseError::UnexpectedEnd)));
    assert_eq!(parse(&strings(&[")"])).err(), Some(RispErr::Parse(ParseError::UnexpectedCloseParen)));
    assert_eq!(parse(&strings(&["(", "(", ")"])).err(), Some(RispErr::Parse(ParseError::UnterminatedList)));
}
