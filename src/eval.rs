use vstd::prelude::*;
use crate::env::{Environment, apply_spec, lookup_spec};
use crate::lexer::{tokenize, tokens_of};
use crate::reader::{parse, parse_spec};
use crate::expr::{Fault, RispErr, RispExp, Sexp, lemma_element_smaller, lemma_list_model, models, outcome};

verus! {

/// The value of `e` in `env`.
pub open spec fn eval_spec(e: Sexp, env: Map<Seq<char>, Sexp>) -> Result<Sexp, Fault>
    decreases e, 0int,
{
    match e {
        Sexp::Sym(name) => lookup_spec(env, name),
        Sexp::Num(n) => Ok(Sexp::Num(n)),
        Sexp::Cmd(_) => Err(Fault::BareCommand),
        Sexp::List(xs) => if xs.len() == 0 {
            Err(Fault::EmptyApplication)
        } else {
            match eval_spec(xs[0], env) {
                Err(f) => Err(f),
                Ok(Sexp::Cmd(b)) => match eval_args(xs, xs.len() as int, env) {
                    Ok(vs) => apply_spec(b, vs),
                    Err(f) => Err(f),
                },
                Ok(_) => Err(Fault::NotApplicable),
            }
        },
    }
}

/// The values of `xs[1..n]`, for `1 <= n <= xs.len()`, evaluated from left
/// to right; the first failure is the result.
pub open spec fn eval_args(xs: Seq<Sexp>, n: int, env: Map<Seq<char>, Sexp>) -> Result<
    Seq<Sexp>,
    Fault,
>
    decreases xs, n,
{
    if n <= 1 || n > xs.len() {
        Ok(seq![])
    } else {
        match eval_args(xs, n - 1, env) {
            Err(f) => Err(f),
            Ok(vs) => match eval_spec(xs[n - 1], env) {
                Ok(v) => Ok(vs.push(v)),
                Err(f) => Err(f),
            },
        }
    }
}

/// Once an argument fails, the evaluation of every longer prefix fails the
/// same way.
pub proof fn lemma_args_fail(xs: Seq<Sexp>, i: int, k: int, env: Map<Seq<char>, Sexp>)
    requires
        1 <= i <= k <= xs.len(),
        eval_args(xs, i, env) is Err,
    ensures
        eval_args(xs, k, env) == eval_args(xs, i, env),
    decreases k - i,
{
    if i < k {
        lemma_args_fail(xs, i, k - 1, env);
    }
}

/// Evaluates `exp` in `env`: a symbol is looked up, a number stands for
/// itself, and a list applies the command its head evaluates to to the
/// values of the other elements, evaluated from left to right.
pub fn eval(exp: &RispExp, env: &mut Environment) -> (r: Result<RispExp, RispErr>)
    ensures
        outcome(r) == eval_spec(exp@, old(env)@),
        *final(env) == *old(env),
    decreases exp,
{
    match exp {
        RispExp::Symbol(k) => env.lookup(k),
        RispExp::Number(n) => Ok(RispExp::Number(*n)),
        RispExp::Command(_) => Err(RispErr::BareCommand),
        RispExp::List(list) => {
            proof {
                lemma_list_model(*list);
            }
            let ghost xs = models(list@);
            let ghost bindings = env@;
            if list.len() == 0 {
                return Err(RispErr::EmptyApplication);
            }
            proof {
                lemma_element_smaller(*exp, 0);
            }
            let head = match eval(&list[0], env) {
                Ok(h) => h,
                Err(f) => {
                    return Err(f);
                },
            };
            let b = match head {
                RispExp::Command(b) => b,
                _ => {
                    return Err(RispErr::NotApplicable);
                },
            };
            let ghost env0 = *env;
            let mut args: Vec<RispExp> = Vec::new();
            let mut i: usize = 1;
            proof {
                assert(models(args@) =~= seq![]);
            }
            while i < list.len()
                invariant
                    *exp == RispExp::List(*list),
                    xs == models(list@),
                    *env == env0,
                    env0 == *old(env),
                    env0@ == bindings,
                    exp@ == Sexp::List(xs),
                    xs.len() == list@.len(),
                    eval_spec(xs[0], bindings) == Ok::<Sexp, Fault>(Sexp::Cmd(b)),
                    1 <= i <= list@.len(),
                    eval_args(xs, i as int, bindings) == Ok::<Seq<Sexp>, Fault>(models(args@)),
                decreases list@.len() - i,
            {
                proof {
                    lemma_element_smaller(*exp, i as int);
                }
                match eval(&list[i], env) {
                    Ok(v) => {
                        let ghost before = models(args@);
                        args.push(v);
                        proof {
                            assert(models(args@) =~= before.push(v@));
                        }
                    },
                    Err(f) => {
                        proof {
                            assert(eval_args(xs, i + 1, bindings) == Err::<Seq<Sexp>, Fault>(f@));
                            lemma_args_fail(xs, i + 1, list@.len() as int, bindings);
                        }
                        return Err(f);
                    },
                }
                i = i + 1;
            }
            b.invoke(args.as_slice())
        },
    }
}

/// What reading one expression from the front of `text` and evaluating it
/// in `env` gives; tokens after that expression are ignored.
pub open spec fn run_spec(text: Seq<char>, env: Map<Seq<char>, Sexp>) -> Result<Sexp, Fault> {
    match parse_spec(tokens_of(text)) {
        Err(pe) => Err(Fault::Parse(pe)),
        Ok((e, _)) => eval_spec(e, env),
    }
}

/// Reads one expression from the front of `expr` and evaluates it in `env`.
pub fn parse_eval(expr: String, env: &mut Environment) -> (r: Result<RispExp, RispErr>)
    ensures
        outcome(r) == run_spec(expr@, old(env)@),
        *final(env) == *old(env),
{
    let tokens = tokenize(expr);
    match parse(tokens.as_slice()) {
        Ok((e, _)) => eval(&e, env),
        Err(f) => Err(f),
    }
}

} // verus!
