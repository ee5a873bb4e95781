use risp::env::{default_env, parse_list_of_ints, parse_single_int};
use risp::expr::{Builtin, RispErr, RispExp};

#[test]
fn single_int_of_number_and_other() {
    assert_eq!(parse_single_int(&RispExp::Number(-3)), Ok(-3));
    assert_eq!(parse_single_int(&RispExp::Symbol("x".to_string())), Err(RispErr::TypeError));
    assert_eq!(parse_single_int(&RispExp::List(vec![])), Err(RispErr::TypeError));
}

#[test]
fn list_of_ints() {
    let args = vec![RispExp::Number(1), RispExp::Number(2)];
    assert_eq!(parse_list_of_ints(&args), Ok(vec![1, 2]));
    let bad = vec![RispExp::Number(1), RispExp::Command(Builtin::Add)];
    assert_eq!(parse_list_of_ints(&bad), Err(RispErr::TypeError));
    assert_eq!(parse_list_of_ints(&[]), Ok(vec![]));
}

#[test]
fn invoke_builtins() {
    let args = vec![RispExp::Number(10), RispExp::Number(3), RispExp::Number(4)];
    assert_eq!(Builtin::Add.invoke(&args), Ok(RispExp::Number(17)));
    assert_eq!(Builtin::Sub.invoke(&args), Ok(RispExp::Number(3)));
    assert_eq!(Builtin::Sub.invoke(&[]), Err(RispErr::ArityError));
    assert_eq!(Builtin::Add.invoke(&[RispExp::Symbol("q".to_string())]), Err(RispErr::TypeError));
}

#[test]
fn default_env_lookup() {
    let env = default_env();
    assert_eq!(env.lookup(&"+".to_string()), Ok(RispExp::Command(Builtin::Add)));
    assert_eq!(env.lookup(&"-".to_string()), Ok(RispExp::Command(Builtin::Sub)));
    assert_eq!(env.lookup(&"*".to_string()), Err(RispErr::UnboundSymbol("*".to_string())));
}
