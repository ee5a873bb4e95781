use risp::env::default_env;
use risp::eval::{eval, parse_eval};
use risp::expr::{ParseError, RispErr, RispExp};
use risp::lexer::tokenize;
use risp::reader::parse;

fn run(text: &str) -> Result<RispExp, RispErr> {
    let mut env = default_env();
    parse_eval(text.to_string(), &mut env)
}

fn read(text: &str) -> RispExp {
    let tokens = tokenize(text.to_string());
    match parse(&tokens) {
        Ok((e, _)) => e,
        Err(e) => panic!("read failed: {:?}", e),
    }
}

#[test]
fn add_three_numbers() {
    assert_eq!(run("(+ 1 2 3)"), Ok(RispExp::Number(6)));
}

#[test]
fn subtract_rest_from_first() {
    assert_eq!(run("(- 10 1 2)"), Ok(RispExp::Number(7)));
}

#[test]
fn subtract_single_argument() {
    assert_eq!(run("(- 5)"), Ok(RispExp::Number(5)));
}

#[test]
fn add_no_arguments_is_zero() {
    assert_eq!(run("(+)"), Ok(RispExp::Number(0)));
}

#[test]
fn nested_application() {
    assert_eq!(run("(+ 1 (- 10 4) (+ 2 2))"), Ok(RispExp::Number(11)));
}

#[test]
fn subtract_without_arguments_is_arity_error() {
    assert_eq!(run("(-)"), Err(RispErr::ArityError));
}

#[test]
fn unbound_symbol_argument() {
    assert_eq!(run("(+ a 1)"), Err(RispErr::UnboundSymbol("a".to_string())));
}

#[test]
fn non_number_argument_is_type_error() {
    assert_eq!(run("(+ + 1)"), Err(RispErr::TypeError));
    assert_eq!(run("(- 1 -)"), Err(RispErr::TypeError));
}

#[test]
fn empty_list_is_empty_application() {
    assert_eq!(run("()"), Err(RispErr::EmptyApplication));
}

#[test]
fn number_head_is_not_applicable() {
    assert_eq!(run("(1 2 3)"), Err(RispErr::NotApplicable));
}

#[test]
fn unbalanced_input_is_unterminated() {
    assert_eq!(run("(+ 1 2"), Err(RispErr::Parse(ParseError::UnterminatedList)));
}

#[test]
fn lone_close_paren() {
    assert_eq!(run(")"), Err(RispErr::Parse(ParseError::UnexpectedCloseParen)));
}

#[test]
fn empty_input_is_unexpected_end() {
    assert_eq!(run(""), Err(RispErr::Parse(ParseError::UnexpectedEnd)));
    assert_eq!(run("   \n"), Err(RispErr::Parse(ParseError::UnexpectedEnd)));
}

#[test]
fn first_failing_argument_is_reported() {
    assert_eq!(
        run("(+ undefined_a undefined_b)"),
        Err(RispErr::UnboundSymbol("undefined_a".to_string()))
    );
    assert_eq!(run("(+ 1 undefined_b (-))"), Err(RispErr::UnboundSymbol("undefined_b".to_string())));
}

#[test]
fn head_error_comes_before_arguments() {
    assert_eq!(run("(f undefined_b)"), Err(RispErr::UnboundSymbol("f".to_string())));
}

#[test]
fn number_literals_evaluate_to_themselves() {
    for n in [0i32, 7, -7, 42, 2147483647, -2147483648] {
        assert_eq!(run(&n.to_string()), Ok(RispExp::Number(n)));
    }
}

#[test]
fn symbol_evaluates_to_its_command() {
    assert_eq!(run("+"), Ok(RispExp::Command(risp::expr::Builtin::Add)));
}

#[test]
fn command_value_alone_is_bare_command() {
    let mut env = default_env();
    let e = RispExp::Command(risp::expr::Builtin::Sub);
    assert_eq!(eval(&e, &mut env), Err(RispErr::BareCommand));
}

#[test]
fn addition_overflow() {
    assert_eq!(run("(+ 2147483647 1)"), Err(RispErr::Overflow));
    assert_eq!(run("(+ 2147483647 1 -1)"), Err(RispErr::Overflow));
    assert_eq!(run("(+ 2147483647 -1 1)"), Ok(RispExp::Number(2147483647)));
}

#[test]
fn subtraction_overflow() {
    assert_eq!(run("(- -2147483648 1)"), Err(RispErr::Overflow));
    assert_eq!(run("(- 0 -2147483648)"), Err(RispErr::Overflow));
    assert_eq!(run("(- -1 2147483647)"), Ok(RispExp::Number(-2147483648)));
}

#[test]
fn trailing_tokens_are_ignored() {
    assert_eq!(run("(+ 1 2) junk )"), Ok(RispExp::Number(3)));
}

#[test]
fn display_uses_commas() {
    let e = read("(+ 1 (foo -2) ())");
    assert_eq!(e.to_text(), "(+,1,(foo,-2),())");
    assert_eq!(RispExp::Command(risp::expr::Builtin::Add).to_text(), "Function {}");
}

#[test]
fn display_then_reparse_keeps_structure() {
    let e = read("(a (b 1 +2) 007 ((c)))");
    let spaced = e.to_text().replace(',', " ");
    assert_eq!(read(&spaced), e);
    assert_eq!(e.to_text(), "(a,(b,1,2),7,((c)))");
}

#[test]
fn copy_is_equal() {
    let e = read("(a (b 1) -3)");
    assert_eq!(e.copy(), e);
}
