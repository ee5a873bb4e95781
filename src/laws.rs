use vstd::prelude::*;
use crate::eval::{eval_args, eval_spec, run_spec};
use crate::expr::{Sexp, decimal_text, digit_char, digits_of, join, render};
use crate::lexer::{LexState, flush, is_paren, is_space, lex_from, lex_step, tokens_of};
use crate::reader::{
    atom,
    digit_value,
    digits_value,
    int_of_text,
    is_digit,
    lemma_parse_consumes,
    parse_spec,
    read_seq_spec,
};

verus! {

/// Text that the tokenizer keeps as one atom: not empty, with no
/// parenthesis and no white space in it.
pub open spec fn atom_text(s: Seq<char>) -> bool {
    &&& s.len() > 0
    &&& forall|i: int| 0 <= i < s.len() ==> !is_space(#[trigger] s[i]) && !is_paren(s[i])
}

proof fn lemma_digit_char(d: int)
    requires
        0 <= d < 10,
    ensures
        is_digit(digit_char(d)),
        digit_value(digit_char(d)) == d,
        !is_space(digit_char(d)),
        !is_paren(digit_char(d)),
        digit_char(d) != '-',
        digit_char(d) != '+',
{
    let ds = seq!['0', '1', '2', '3', '4', '5', '6', '7', '8', '9'];
    assert(digit_char(d) == ds[d]);
    if d == 0 { assert(ds[0] == '0'); }
    else if d == 1 { assert(ds[1] == '1'); }
    else if d == 2 { assert(ds[2] == '2'); }
    else if d == 3 { assert(ds[3] == '3'); }
    else if d == 4 { assert(ds[4] == '4'); }
    else if d == 5 { assert(ds[5] == '5'); }
    else if d == 6 { assert(ds[6] == '6'); }
    else if d == 7 { assert(ds[7] == '7'); }
    else if d == 8 { assert(ds[8] == '8'); }
    else { assert(ds[9] == '9'); }
}

proof fn lemma_digits_of(n: nat)
    ensures
        digits_of(n).len() > 0,
        forall|i: int| 0 <= i < digits_of(n).len() ==> {
            let c = #[trigger] digits_of(n)[i];
            is_digit(c) && !is_space(c) && !is_paren(c) && c != '-' && c != '+'
        },
        digits_value(digits_of(n)) == n,
    decreases n,
{
    if n < 10 {
        lemma_digit_char(n as int);
        let s = digits_of(n);
        assert(s.drop_last() =~= seq![]);
        assert(digits_value(s.drop_last()) == 0);
        assert(s.last() == digit_char(n as int));
    } else {
        lemma_digits_of(n / 10);
        lemma_digit_char((n % 10) as int);
        let s = digits_of(n);
        assert(s.drop_last() =~= digits_of(n / 10));
        assert(s.last() == digit_char((n % 10) as int));
        assert(digits_value(s) == digits_value(digits_of(n / 10)) * 10 + (n % 10) as int);
        assert(n == (n / 10) * 10 + n % 10) by (nonlinear_arith);
    }
}

proof fn lemma_plain_lex(s: Seq<char>)
    requires
        forall|i: int| 0 <= i < s.len() ==> !is_space(#[trigger] s[i]) && !is_paren(s[i]),
    ensures
        lex_from((seq![], seq![]), s) == (Seq::<Seq<char>>::empty(), s),
    decreases s.len(),
{
    if s.len() > 0 {
        lemma_plain_lex(s.drop_last());
        assert(s.drop_last().push(s.last()) =~= s);
    }
}

/// Text with no parenthesis and no white space in it is one token.
pub proof fn lemma_atom_tokens(s: Seq<char>)
    requires
        atom_text(s),
    ensures
        tokens_of(s) == seq![s],
{
    lemma_plain_lex(s);
    assert(Seq::<Seq<char>>::empty().push(s) =~= seq![s]);
}

/// The decimal text of a number is one atom, and reads back as that number.
pub proof fn lemma_decimal_round_trip(n: i32)
    ensures
        atom_text(decimal_text(n as int)),
        int_of_text(decimal_text(n as int)) == Some(n),
{
    let s = decimal_text(n as int);
    if n < 0 {
        let m = (-n) as nat;
        lemma_digits_of(m);
        let body = digits_of(m);
        assert(s.drop_first() =~= body);
        assert(forall|i: int| 0 < i < s.len() ==> s[i] == body[i - 1]);
        assert(atom_text(s)) by {
            assert forall|i: int| 0 <= i < s.len() implies !is_space(#[trigger] s[i]) && !is_paren(s[i]) by {
                if i > 0 {
                    assert(s[i] == body[i - 1]);
                } else {
                    assert(s[0] == '-');
                }
            }
        }
    } else {
        lemma_digits_of(n as nat);
        let body = digits_of(n as nat);
        assert(body[0] != '-' && body[0] != '+');
    }
}

/// Evaluating the decimal text of any `i32` gives back that number.
pub proof fn law_number_literal(n: i32, env: Map<Seq<char>, Sexp>)
    ensures
        run_spec(decimal_text(n as int), env) == Ok::<Sexp, crate::expr::Fault>(Sexp::Num(n)),
{
    let s = decimal_text(n as int);
    lemma_decimal_round_trip(n);
    lemma_atom_tokens(s);
    assert(seq![s].drop_first() =~= Seq::<Seq<char>>::empty());
    assert(s != seq!['(']) by {
        assert(!is_paren(s[0]));
    }
    assert(s != seq![')']) by {
        assert(!is_paren(s[0]));
    }
}

/// Arguments are evaluated from left to right, and the first one that fails
/// decides the outcome: later arguments are never looked at.
pub proof fn law_first_failing_argument(xs: Seq<Sexp>, i: int, env: Map<Seq<char>, Sexp>)
    requires
        1 <= i < xs.len(),
        eval_spec(xs[0], env) matches Ok(Sexp::Cmd(_)),
        forall|j: int| 1 <= j < i ==> (#[trigger] eval_spec(xs[j], env)) is Ok,
        eval_spec(xs[i], env) is Err,
    ensures
        eval_spec(Sexp::List(xs), env) == eval_spec(xs[i], env),
{
    lemma_args_ok(xs, i, env);
    crate::eval::lemma_args_fail(xs, i + 1, xs.len() as int, env);
}

proof fn lemma_args_ok(xs: Seq<Sexp>, k: int, env: Map<Seq<char>, Sexp>)
    requires
        1 <= k <= xs.len(),
        forall|j: int| 1 <= j < k ==> (#[trigger] eval_spec(xs[j], env)) is Ok,
    ensures
        eval_args(xs, k, env) is Ok,
    decreases k,
{
    if k > 1 {
        lemma_args_ok(xs, k - 1, env);
        assert(eval_spec(xs[k - 1], env) is Ok);
    }
}

proof fn lemma_lex_concat(st: LexState, a: Seq<char>, b: Seq<char>)
    ensures
        lex_from(st, a + b) == lex_from(lex_from(st, a), b),
    decreases b.len(),
{
    if b.len() == 0 {
        assert(a + b =~= a);
    } else {
        lemma_lex_concat(st, a, b.drop_last());
        assert((a + b).drop_last() =~= a + b.drop_last());
        assert((a + b).last() == b.last());
    }
}

/// Tokens already read are only ever extended.
proof fn lemma_lex_shift(toks: Seq<Seq<char>>, cur: Seq<char>, b: Seq<char>)
    ensures
        lex_from((toks, cur), b) == (toks + lex_from((seq![], cur), b).0, lex_from(
            (seq![], cur),
            b,
        ).1),
    decreases b.len(),
{
    if b.len() == 0 {
        assert(toks + seq![] =~= toks);
    } else {
        lemma_lex_shift(toks, cur, b.drop_last());
        let st = lex_from((seq![], cur), b.drop_last());
        let c = b.last();
        assert(flush(toks + st.0, st.1) =~= toks + flush(st.0, st.1));
        assert((toks + flush(st.0, st.1)).push(seq![c]) =~= toks + flush(st.0, st.1).push(seq![c]));
    }
}

proof fn lemma_space_char()
    ensures
        is_space(' '),
        !is_paren(' '),
{
}

/// A space separates the tokens of the text before it from those after it.
proof fn lemma_tokens_space(a: Seq<char>, b: Seq<char>)
    ensures
        tokens_of(a + seq![' '] + b) == tokens_of(a) + tokens_of(b),
{
    lemma_space_char();
    let e: LexState = (seq![], seq![]);
    lemma_lex_concat(e, a + seq![' '], b);
    lemma_lex_concat(e, a, seq![' ']);
    lemma_lex_one(lex_from(e, a), ' ');
    assert(lex_from(e, a + seq![' ']) == (tokens_of(a), Seq::<char>::empty()));
    lemma_lex_shift(tokens_of(a), seq![], b);
    let t = lex_from(e, b);
    assert(lex_from(e, a + seq![' '] + b) == (tokens_of(a) + t.0, t.1));
    assert(flush(tokens_of(a) + t.0, t.1) =~= tokens_of(a) + flush(t.0, t.1));
}

proof fn lemma_lex_one(st: LexState, c: char)
    ensures
        lex_from(st, seq![c]) == lex_step(st, c),
{
    assert(seq![c].drop_last() =~= Seq::<char>::empty());
    assert(lex_from(st, Seq::<char>::empty()) == st);
}

proof fn lemma_tokens_open(b: Seq<char>)
    ensures
        tokens_of(seq!['('] + b) == seq![seq!['(']] + tokens_of(b),
{
    let e: LexState = (seq![], seq![]);
    lemma_lex_concat(e, seq!['('], b);
    lemma_lex_one(e, '(');
    assert(Seq::<Seq<char>>::empty().push(seq!['(']) =~= seq![seq!['(']]);
    assert(lex_from(e, seq!['(']) == (seq![seq!['(']], Seq::<char>::empty()));
    lemma_lex_shift(seq![seq!['(']], seq![], b);
    let t = lex_from(e, b);
    assert(flush(seq![seq!['(']] + t.0, t.1) =~= seq![seq!['(']] + flush(t.0, t.1));
}

proof fn lemma_tokens_close(a: Seq<char>)
    ensures
        tokens_of(a + seq![')']) == tokens_of(a).push(seq![')']),
{
    let e: LexState = (seq![], seq![]);
    lemma_lex_concat(e, a, seq![')']);
    lemma_lex_one(lex_from(e, a), ')');
    assert(lex_from(e, Seq::<char>::empty()) == e);
}

/// The expressions that reading can produce: symbols that are single atoms
/// and do not read as numbers, numbers, and lists of such expressions.
pub open spec fn parsed_form(e: Sexp) -> bool
    decreases e,
{
    match e {
        Sexp::Sym(s) => atom_text(s) && int_of_text(s) is None,
        Sexp::Num(_) => true,
        Sexp::List(xs) => forall|i: int| 0 <= i < xs.len() ==> parsed_form(#[trigger] xs[i]),
        Sexp::Cmd(_) => false,
    }
}

/// The tokens of an expression.
pub open spec fn flat_tokens(e: Sexp) -> Seq<Seq<char>>
    decreases e, 0int,
{
    match e {
        Sexp::List(xs) => seq![seq!['(']] + flat_list(xs) + seq![seq![')']],
        _ => seq![render(e, ' ')],
    }
}

/// The tokens of a sequence of expressions, one after the other.
pub open spec fn flat_list(xs: Seq<Sexp>) -> Seq<Seq<char>>
    decreases xs, 1int,
{
    if xs.len() == 0 {
        seq![]
    } else {
        flat_list(xs.drop_last()) + flat_tokens(xs[xs.len() - 1])
    }
}

proof fn lemma_atom_form(e: Sexp)
    requires
        parsed_form(e),
        !(e is List),
    ensures
        atom_text(render(e, ' ')),
        atom(render(e, ' ')) == e,
{
    if let Sexp::Num(n) = e {
        lemma_decimal_round_trip(n);
    }
}

/// Rendering with spaces gives text whose tokens are the expression's.
proof fn lemma_render_tokens(e: Sexp)
    requires
        parsed_form(e),
    ensures
        tokens_of(render(e, ' ')) == flat_tokens(e),
    decreases e, 0int,
{
    match e {
        Sexp::List(xs) => {
            lemma_join_tokens(xs);
            let j = join(xs, ' ');
            assert(seq!['('] + j + seq![')'] =~= seq!['('] + (j + seq![')']));
            lemma_tokens_open(j + seq![')']);
            lemma_tokens_close(j);
            assert(seq![seq!['(']] + tokens_of(j).push(seq![')']) =~= seq![seq!['(']] + flat_list(xs)
                + seq![seq![')']]);
        },
        _ => {
            lemma_atom_form(e);
            lemma_atom_tokens(render(e, ' '));
        },
    }
}

proof fn lemma_join_tokens(xs: Seq<Sexp>)
    requires
        forall|i: int| 0 <= i < xs.len() ==> parsed_form(#[trigger] xs[i]),
    ensures
        tokens_of(join(xs, ' ')) == flat_list(xs),
    decreases xs, 1int,
{
    if xs.len() == 0 {
        assert(lex_from((seq![], seq![]), seq![]) == (Seq::<Seq<char>>::empty(), Seq::<char>::empty()));
    } else if xs.len() == 1 {
        lemma_render_tokens(xs[0]);
        assert(xs.drop_last() =~= seq![]);
        assert(flat_list(xs.drop_last()) =~= seq![]);
        assert(flat_list(xs) =~= flat_tokens(xs[0]));
    } else {
        lemma_join_tokens(xs.drop_last());
        lemma_render_tokens(xs[xs.len() - 1]);
        lemma_tokens_space(join(xs.drop_last(), ' '), render(xs[xs.len() - 1], ' '));
    }
}

proof fn lemma_flat_front(xs: Seq<Sexp>)
    requires
        xs.len() > 0,
    ensures
        flat_list(xs) == flat_tokens(xs[0]) + flat_list(xs.drop_first()),
    decreases xs.len(),
{
    if xs.len() == 1 {
        assert(xs.drop_last() =~= seq![]);
        assert(xs.drop_first() =~= seq![]);
        assert(flat_list(xs) =~= flat_tokens(xs[0]) + flat_list(xs.drop_first()));
    } else {
        lemma_flat_front(xs.drop_last());
        assert(xs.drop_last().drop_first() =~= xs.drop_first().drop_last());
        assert(xs.drop_first()[xs.len() - 2] == xs[xs.len() - 1]);
        assert(flat_list(xs) =~= flat_tokens(xs[0]) + flat_list(xs.drop_first()));
    }
}

proof fn lemma_flat_head(e: Sexp)
    requires
        parsed_form(e),
    ensures
        flat_tokens(e).len() > 0,
        flat_tokens(e)[0] != seq![')'],
{
    if !(e is List) {
        lemma_atom_form(e);
        let t = render(e, ' ');
        assert(!is_paren(t[0]));
        assert(t != seq![')']);
    } else {
        assert(seq!['('][0] != seq![')'][0]);
    }
}

/// The tokens of an expression read back as that expression.
proof fn lemma_parse_flat(e: Sexp, rest: Seq<Seq<char>>)
    requires
        parsed_form(e),
    ensures
        parse_spec(flat_tokens(e) + rest) == Ok::<_, crate::expr::ParseError>((e, rest)),
    decreases e, 0int,
{
    let ts = flat_tokens(e) + rest;
    match e {
        Sexp::List(xs) => {
            assert(ts[0] == seq!['(']);
            assert(ts.drop_first() =~= flat_list(xs) + seq![seq![')']] + rest);
            lemma_read_flat(xs, seq![], rest);
            assert(seq![] + xs =~= xs);
        },
        _ => {
            lemma_atom_form(e);
            let t = render(e, ' ');
            assert(!is_paren(t[0]));
            assert(ts[0] == t);
            assert(ts.drop_first() =~= rest);
        },
    }
}

proof fn lemma_read_flat(xs: Seq<Sexp>, acc: Seq<Sexp>, rest: Seq<Seq<char>>)
    requires
        forall|i: int| 0 <= i < xs.len() ==> parsed_form(#[trigger] xs[i]),
    ensures
        read_seq_spec(flat_list(xs) + seq![seq![')']] + rest, acc) == Ok::<
            _,
            crate::expr::ParseError,
        >((Sexp::List(acc + xs), rest)),
    decreases xs, 1int,
{
    let ts = flat_list(xs) + seq![seq![')']] + rest;
    if xs.len() == 0 {
        assert(flat_list(xs) =~= seq![]);
        assert(ts[0] == seq![')']);
        assert(ts.drop_first() =~= rest);
        assert(acc + xs =~= acc);
    } else {
        let tail = xs.subrange(1, xs.len() as int);
        assert(tail =~= xs.drop_first());
        lemma_flat_front(xs);
        lemma_flat_head(xs[0]);
        let after = flat_list(tail) + seq![seq![')']] + rest;
        assert(ts =~= flat_tokens(xs[0]) + after);
        lemma_parse_flat(xs[0], after);
        lemma_read_flat(tail, acc.push(xs[0]), rest);
        assert(acc.push(xs[0]) + tail =~= acc + xs);
    }
}

/// A token that the tokenizer can produce.
pub open spec fn proper_token(t: Seq<char>) -> bool {
    t == seq!['('] || t == seq![')'] || atom_text(t)
}

pub open spec fn proper_tokens(ts: Seq<Seq<char>>) -> bool {
    forall|i: int| 0 <= i < ts.len() ==> proper_token(#[trigger] ts[i])
}

proof fn lemma_lex_proper(s: Seq<char>)
    ensures
        proper_tokens(lex_from((seq![], seq![]), s).0),
        forall|i: int|
            0 <= i < lex_from((seq![], seq![]), s).1.len() ==> !is_space(
                #[trigger] lex_from((seq![], seq![]), s).1[i],
            ) && !is_paren(lex_from((seq![], seq![]), s).1[i]),
    decreases s.len(),
{
    if s.len() > 0 {
        lemma_lex_proper(s.drop_last());
        let st = lex_from((seq![], seq![]), s.drop_last());
        let c = s.last();
        assert(proper_tokens(flush(st.0, st.1)));
        if is_paren(c) {
            assert(proper_token(seq![c]));
            assert(proper_tokens(flush(st.0, st.1).push(seq![c])));
        } else if !is_space(c) {
            assert(forall|i: int| 0 <= i < st.1.len() ==> st.1.push(c)[i] == st.1[i]);
        }
    }
}

proof fn lemma_tokens_proper(s: Seq<char>)
    ensures
        proper_tokens(tokens_of(s)),
{
    lemma_lex_proper(s);
}

proof fn lemma_suffix_proper(ts: Seq<Seq<char>>, k: int)
    requires
        proper_tokens(ts),
        0 <= k <= ts.len(),
    ensures
        proper_tokens(ts.skip(k)),
{
    assert forall|i: int| 0 <= i < ts.skip(k).len() implies proper_token(#[trigger] ts.skip(k)[i]) by {
        assert(ts.skip(k)[i] == ts[i + k]);
    }
}

/// Reading proper tokens produces only expressions of the parsed form.
proof fn lemma_parse_forms(ts: Seq<Seq<char>>)
    requires
        proper_tokens(ts),
    ensures
        parse_spec(ts) matches Ok((e, _)) ==> parsed_form(e),
    decreases ts.len(), 0int,
{
    if ts.len() > 0 {
        if ts[0] == seq!['('] {
            lemma_suffix_proper(ts, 1);
            assert(ts.skip(1) =~= ts.drop_first());
            lemma_read_forms(ts.drop_first(), seq![]);
        } else {
            assert(proper_token(ts[0]));
        }
    }
}

proof fn lemma_read_forms(ts: Seq<Seq<char>>, acc: Seq<Sexp>)
    requires
        proper_tokens(ts),
        forall|i: int| 0 <= i < acc.len() ==> parsed_form(#[trigger] acc[i]),
    ensures
        read_seq_spec(ts, acc) matches Ok((e, _)) ==> parsed_form(e),
    decreases ts.len(), 1int,
{
    if ts.len() > 0 && ts[0] != seq![')'] {
        lemma_parse_forms(ts);
        lemma_parse_consumes(ts);
        if let Ok((x, rest)) = parse_spec(ts) {
            lemma_suffix_proper(ts, ts.len() - rest.len());
            let acc2 = acc.push(x);
            assert(forall|i: int| 0 <= i < acc.len() ==> acc2[i] == acc[i]);
            lemma_read_forms(rest, acc2);
        }
    }
}

/// Reading the display form of an expression back in gives that
/// expression again, once the commas between list elements are read as the
/// spaces they stand for: whatever text was read, rendering what came out
/// with spaces and reading it once more gives the same expression and
/// leaves no token over.
pub proof fn law_display_reparse(text: Seq<char>)
    requires
        parse_spec(tokens_of(text)) is Ok,
    ensures
        ({
            let e = parse_spec(tokens_of(text))->Ok_0.0;
            parse_spec(tokens_of(render(e, ' '))) == Ok::<_, crate::expr::ParseError>(
                (e, Seq::<Seq<char>>::empty()),
            )
        }),
{
    let e = parse_spec(tokens_of(text))->Ok_0.0;
    lemma_tokens_proper(text);
    lemma_parse_forms(tokens_of(text));
    lemma_render_tokens(e);
    lemma_parse_flat(e, seq![]);
    assert(flat_tokens(e) + Seq::<Seq<char>>::empty() =~= flat_tokens(e));
}

} // verus!
