use vstd::prelude::*;
use crate::expr::{Fault, ParseError, RispErr, RispExp, Sexp, models};
use crate::lexer::texts;

verus! {

pub open spec fn is_digit(c: char) -> bool {
    '0' <= c <= '9'
}

/// The value of the ASCII digit `c`.
pub open spec fn digit_value(c: char) -> int {
    (c as u32) as int - 48
}

/// The value of a run of decimal digits, most significant first.
pub open spec fn digits_value(s: Seq<char>) -> int
    decreases s.len(),
{
    if s.len() == 0 {
        0
    } else {
        digits_value(s.drop_last()) * 10 + digit_value(s.last())
    }
}

/// What `str::parse::<i32>` makes of `s`: an optional `+` or `-` sign,
/// then one or more ASCII digits, whose value must lie in the range of
/// `i32`; anything else is no number.
pub open spec fn int_of_text(s: Seq<char>) -> Option<i32> {
    let signed = s.len() > 0 && (s[0] == '-' || s[0] == '+');
    let body = if signed {
        s.drop_first()
    } else {
        s
    };
    let v = if s.len() > 0 && s[0] == '-' {
        -digits_value(body)
    } else {
        digits_value(body)
    };
    if body.len() > 0 && (forall|i: int| 0 <= i < body.len() ==> is_digit(#[trigger] body[i]))
        && i32::MIN <= v <= i32::MAX {
        Some(v as i32)
    } else {
        None
    }
}

/// Relies on `str::parse::<i32>` (`i32::from_str`): it accepts exactly an
/// optional sign followed by decimal digits whose value fits in `i32`.
#[verifier::external_body]
fn parse_i32(s: &str) -> (r: Option<i32>)
    ensures
        r == int_of_text(s@),
{
    s.parse::<i32>().ok()
}

/// The expression an atom stands for: a number where the text reads as
/// one, a symbol otherwise.
pub open spec fn atom(t: Seq<char>) -> Sexp {
    match int_of_text(t) {
        Some(v) => Sexp::Num(v),
        None => Sexp::Sym(t),
    }
}

/// Reads one expression from the front of `ts`; returns it with the
/// tokens that follow it.
pub open spec fn parse_spec(ts: Seq<Seq<char>>) -> Result<(Sexp, Seq<Seq<char>>), ParseError>
    decreases ts.len(), 0nat,
{
    if ts.len() == 0 {
        Err(ParseError::UnexpectedEnd)
    } else if ts[0] == seq!['('] {
        read_seq_spec(ts.drop_first(), seq![])
    } else if ts[0] == seq![')'] {
        Err(ParseError::UnexpectedCloseParen)
    } else {
        Ok((atom(ts[0]), ts.drop_first()))
    }
}

/// Reads the rest of a list whose elements so far are `acc`, up to and
/// including its `)`.
pub open spec fn read_seq_spec(ts: Seq<Seq<char>>, acc: Seq<Sexp>) -> Result<
    (Sexp, Seq<Seq<char>>),
    ParseError,
>
    decreases ts.len(), 1nat,
{
    if ts.len() == 0 {
        Err(ParseError::UnterminatedList)
    } else if ts[0] == seq![')'] {
        Ok((Sexp::List(acc), ts.drop_first()))
    } else {
        match parse_spec(ts) {
            Err(e) => Err(e),
            // A successful read always consumes a token (see
            // `lemma_parse_consumes`), so the second branch is never taken.
            Ok((x, rest)) => if rest.len() < ts.len() {
                read_seq_spec(rest, acc.push(x))
            } else {
                Err(ParseError::UnexpectedEnd)
            },
        }
    }
}

/// What is left after a successful read is a proper suffix of the input.
pub proof fn lemma_parse_consumes(ts: Seq<Seq<char>>)
    ensures
        parse_spec(ts) matches Ok((_, rest)) ==> rest.len() < ts.len() && rest == ts.skip(
            ts.len() - rest.len(),
        ),
    decreases ts.len(), 0nat,
{
    if ts.len() > 0 && ts[0] == seq!['('] {
        lemma_read_seq_consumes(ts.drop_first(), seq![]);
        if let Ok((_, rest)) = parse_spec(ts) {
            assert(ts.drop_first().skip(ts.len() - 1 - rest.len()) =~= ts.skip(ts.len() - rest.len()));
        }
    }
}

pub proof fn lemma_read_seq_consumes(ts: Seq<Seq<char>>, acc: Seq<Sexp>)
    ensures
        read_seq_spec(ts, acc) matches Ok((_, rest)) ==> rest.len() < ts.len() && rest == ts.skip(
            ts.len() - rest.len(),
        ),
    decreases ts.len(), 1nat,
{
    if ts.len() > 0 && ts[0] != seq![')'] {
        lemma_parse_consumes(ts);
        if let Ok((x, rest)) = parse_spec(ts) {
            lemma_read_seq_consumes(rest, acc.push(x));
            if let Ok((_, rest2)) = read_seq_spec(ts, acc) {
                assert(rest.skip(rest.len() - rest2.len()) =~= ts.skip(ts.len() - rest2.len()));
            }
        }
    } else if ts.len() > 0 {
        assert(ts.drop_first() =~= ts.skip(1));
    }
}

/// Whether the text of `t` is the single character `c`.
fn is_token(t: &String, c: char) -> (r: bool)
    ensures
        r == (t@ == seq![c]),
{
    let s = t.as_str();
    if s.unicode_len() == 1 {
        let d = s.get_char(0);
        proof {
            if d == c {
                assert(s@ =~= seq![c]);
            }
        }
        d == c
    } else {
        false
    }
}

/// The expression for one atom: a `Number` where its text reads as an
/// `i32`, a `Symbol` otherwise.
pub fn parse_atom(token: &str) -> (r: RispExp)
    ensures
        r@ == atom(token@),
{
    match parse_i32(token) {
        Some(v) => RispExp::Number(v),
        None => RispExp::Symbol(String::from_str(token)),
    }
}

/// Reads one expression from `tokens[pos..]`; on success returns it with
/// the position of the first token after it.
fn parse_at(tokens: &[String], pos: usize) -> (r: Result<(RispExp, usize), RispErr>)
    requires
        pos <= tokens@.len(),
    ensures
        match parse_spec(texts(tokens@).skip(pos as int)) {
            Ok((e, rest)) => r matches Ok((x, p)) && x@ == e && pos < p <= tokens@.len() && rest
                == texts(tokens@).skip(p as int),
            Err(pe) => r matches Err(f) && f@ == Fault::Parse(pe),
        },
    decreases tokens@.len() - pos, 0nat,
{
    let ghost ts = texts(tokens@).skip(pos as int);
    if pos == tokens.len() {
        return Err(RispErr::Parse(ParseError::UnexpectedEnd));
    }
    assert(ts[0] == tokens@[pos as int]@);
    if is_token(&tokens[pos], '(') {
        proof {
            assert(ts.drop_first() =~= texts(tokens@).skip(pos + 1));
        }
        read_seq(tokens, pos + 1)
    } else if is_token(&tokens[pos], ')') {
        Err(RispErr::Parse(ParseError::UnexpectedCloseParen))
    } else {
        proof {
            assert(ts.drop_first() =~= texts(tokens@).skip(pos + 1));
        }
        Ok((parse_atom(tokens[pos].as_str()), pos + 1))
    }
}

/// Reads the elements of a list from `tokens[pos..]` up to its `)`, which
/// is consumed.
fn read_seq(tokens: &[String], pos: usize) -> (r: Result<(RispExp, usize), RispErr>)
    requires
        pos <= tokens@.len(),
    ensures
        match read_seq_spec(texts(tokens@).skip(pos as int), seq![]) {
            Ok((e, rest)) => r matches Ok((x, p)) && x@ == e && pos < p <= tokens@.len() && rest
                == texts(tokens@).skip(p as int),
            Err(pe) => r matches Err(f) && f@ == Fault::Parse(pe),
        },
    decreases tokens@.len() - pos, 1nat,
{
    let ghost all = texts(tokens@);
    let mut res: Vec<RispExp> = Vec::new();
    let mut p: usize = pos;
    proof {
        assert(models(res@) =~= seq![]);
    }
    loop
        invariant
            pos <= p <= tokens@.len(),
            all == texts(tokens@),
            read_seq_spec(all.skip(pos as int), seq![]) == read_seq_spec(
                all.skip(p as int),
                models(res@),
            ),
        decreases tokens@.len() - p,
    {
        let ghost ts = all.skip(p as int);
        if p == tokens.len() {
            return Err(RispErr::Parse(ParseError::UnterminatedList));
        }
        assert(ts[0] == tokens@[p as int]@);
        if is_token(&tokens[p], ')') {
            proof {
                assert(ts.drop_first() =~= all.skip(p + 1));
                crate::expr::lemma_list_model(res);
            }
            return Ok((RispExp::List(res), p + 1));
        }
        proof {
            lemma_parse_consumes(ts);
        }
        match parse_at(tokens, p) {
            Err(f) => {
                return Err(f);
            },
            Ok((x, q)) => {
                let ghost old_res = models(res@);
                res.push(x);
                proof {
                    assert(models(res@) =~= old_res.push(x@));
                }
                p = q;
            },
        }
    }
}

/// Reads one expression from the front of `tokens`; returns it with the
/// tokens that follow it.
pub fn parse(tokens: &[String]) -> (r: Result<(RispExp, &[String]), RispErr>)
    ensures
        match parse_spec(texts(tokens@)) {
            Ok((e, rest)) => r matches Ok((x, after)) && x@ == e && texts(after@) == rest,
            Err(pe) => r matches Err(f) && f@ == Fault::Parse(pe),
        },
{
    proof {
        assert(texts(tokens@).skip(0) =~= texts(tokens@));
    }
    match parse_at(tokens, 0) {
        Ok((x, p)) => {
            let after = &tokens[p..tokens.len()];
            proof {
                assert(texts(after@) =~= texts(tokens@).skip(p as int));
            }
            Ok((x, after))
        },
        Err(f) => Err(f),
    }
}

} // verus!
