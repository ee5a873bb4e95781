use vstd::prelude::*;

verus! {

/// The built-in commands an environment can bind. Their arithmetic is
/// checked: a sum that leaves the range of `i32` at any step is an
/// `Overflow` error, never a wrapped value.
#[derive(Clone, Copy, PartialEq, Eq, Debug)]
pub enum Builtin {
    /// `+`: the sum of all arguments.
    Add,
    /// `-`: the first argument minus the sum of the rest.
    Sub,
}

/// An expression: what the reader produces and the evaluator consumes.
#[derive(Debug, PartialEq)]
pub enum RispExp {
    Symbol(String),
    Number(i32),
    List(Vec<RispExp>),
    Command(Builtin),
}

/// The mathematical model of an expression.
pub enum Sexp {
    Sym(Seq<char>),
    Num(i32),
    List(Seq<Sexp>),
    Cmd(Builtin),
}

/// The model of an expression, element by element.
pub open spec fn model(e: RispExp) -> Sexp
    decreases e,
{
    match e {
        RispExp::Symbol(s) => Sexp::Sym(s@),
        RispExp::Number(n) => Sexp::Num(n),
        RispExp::List(v) => Sexp::List(
            Seq::new(v.len() as nat, |i: int| if 0 <= i < v.len() { model(v[i]) } else { Sexp::Num(0) }),
        ),
        RispExp::Command(b) => Sexp::Cmd(b),
    }
}

impl View for RispExp {
    type V = Sexp;

    open spec fn view(&self) -> Sexp {
        model(*self)
    }
}

/// Why a token sequence could not be read as an expression.
#[derive(Clone, Copy, PartialEq, Eq, Debug)]
pub enum ParseError {
    /// There were no tokens left where an expression was expected.
    UnexpectedEnd,
    /// A `)` stood where an expression was expected.
    UnexpectedCloseParen,
    /// A list was opened and the tokens ran out before its `)`.
    UnterminatedList,
}

/// Why reading or evaluating an expression failed.
#[derive(Debug, PartialEq)]
pub enum RispErr {
    Parse(ParseError),
    /// A symbol with no binding in the environment.
    UnboundSymbol(String),
    /// The head of a list did not evaluate to a command.
    NotApplicable,
    /// An empty list was evaluated.
    EmptyApplication,
    /// A command value was evaluated on its own.
    BareCommand,
    /// A command got an argument that is not a number.
    TypeError,
    /// A command got too few arguments.
    ArityError,
    /// An intermediate or final result left the range of `i32`.
    Overflow,
}

/// The model of an error.
pub enum Fault {
    Parse(ParseError),
    UnboundSymbol(Seq<char>),
    NotApplicable,
    EmptyApplication,
    BareCommand,
    TypeError,
    ArityError,
    Overflow,
}

impl View for RispErr {
    type V = Fault;

    open spec fn view(&self) -> Fault {
        match self {
            RispErr::Parse(p) => Fault::Parse(*p),
            RispErr::UnboundSymbol(s) => Fault::UnboundSymbol(s@),
            RispErr::NotApplicable => Fault::NotApplicable,
            RispErr::EmptyApplication => Fault::EmptyApplication,
            RispErr::BareCommand => Fault::BareCommand,
            RispErr::TypeError => Fault::TypeError,
            RispErr::ArityError => Fault::ArityError,
            RispErr::Overflow => Fault::Overflow,
        }
    }
}

/// The model of an evaluation outcome.
pub open spec fn outcome(r: Result<RispExp, RispErr>) -> Result<Sexp, Fault> {
    match r {
        Ok(e) => Ok(e@),
        Err(f) => Err(f@),
    }
}

/// The models of a sequence of expressions.
pub open spec fn models(v: Seq<RispExp>) -> Seq<Sexp> {
    Seq::new(v.len(), |i: int| v[i]@)
}

pub proof fn lemma_list_model(v: Vec<RispExp>)
    ensures
        RispExp::List(v)@ == Sexp::List(models(v@)),
{
    let inner = Seq::new(
        v.len() as nat,
        |i: int| if 0 <= i < v.len() { model(v[i]) } else { Sexp::Num(0) },
    );
    let m = model(RispExp::List(v));
    assert(m is List);
    assert(m->List_0.len() == v.len());
    assert forall|i: int| 0 <= i < v.len() implies #[trigger] m->List_0[i] == models(v@)[i] by {
        assert(m->List_0[i] == inner[i]);
    }
    assert(m->List_0 =~= models(v@));
}

/// An element of a list is smaller than the list.
pub proof fn lemma_element_smaller(e: RispExp, i: int)
    requires
        e is List,
        0 <= i < e->List_0.len(),
    ensures
        decreases_to!(e => e->List_0[i]),
{
    vstd::std_specs::vec::axiom_vec_index_decreases(e->List_0, i);
    assert(decreases_to!(e => e->List_0));
}

/// The decimal digit `d`, for `0 <= d < 10`.
pub open spec fn digit_char(d: int) -> char {
    seq!['0', '1', '2', '3', '4', '5', '6', '7', '8', '9'][d]
}

/// The decimal digits of `n`, most significant first, without leading zeros.
pub open spec fn digits_of(n: nat) -> Seq<char>
    decreases n,
{
    if n < 10 {
        seq![digit_char(n as int)]
    } else {
        digits_of(n / 10).push(digit_char((n % 10) as int))
    }
}

/// `n` written in decimal, with a leading `-` when it is negative.
pub open spec fn decimal_text(n: int) -> Seq<char> {
    if n < 0 {
        seq!['-'] + digits_of((-n) as nat)
    } else {
        digits_of(n as nat)
    }
}

/// The text of an expression, with `sep` between the elements of a list.
pub open spec fn render(e: Sexp, sep: char) -> Seq<char>
    decreases e, 0nat,
{
    match e {
        Sexp::Sym(s) => s,
        Sexp::Num(n) => decimal_text(n as int),
        Sexp::List(xs) => seq!['('] + join(xs, sep) + seq![')'],
        Sexp::Cmd(_) => "Function {}"@,
    }
}

/// The texts of `xs`, with `sep` between each two.
pub open spec fn join(xs: Seq<Sexp>, sep: char) -> Seq<char>
    decreases xs, 1nat,
{
    if xs.len() == 0 {
        seq![]
    } else if xs.len() == 1 {
        render(xs[0], sep)
    } else {
        join(xs.drop_last(), sep) + seq![sep] + render(xs[xs.len() - 1], sep)
    }
}

/// The display form of an expression: the elements of a list are
/// separated by commas, as in `(1,2,3)`.
pub open spec fn display(e: Sexp) -> Seq<char> {
    render(e, ',')
}

/// Relies on `i32`'s `to_string`: its decimal digits, with a leading `-`
/// for a negative value.
#[verifier::external_body]
fn number_text(n: i32) -> (r: String)
    ensures
        r@ == decimal_text(n as int),
{
    n.to_string()
}

impl RispExp {
    /// A copy of this expression, down to its leaves.
    pub fn copy(&self) -> (r: RispExp)
        ensures
            r@ == self@,
        decreases self,
    {
        match self {
            RispExp::Symbol(s) => RispExp::Symbol(s.clone()),
            RispExp::Number(n) => RispExp::Number(*n),
            RispExp::Command(b) => RispExp::Command(*b),
            RispExp::List(v) => {
                let mut out: Vec<RispExp> = Vec::new();
                let mut i: usize = 0;
                while i < v.len()
                    invariant
                        *self == RispExp::List(*v),
                        i <= v.len(),
                        out@.len() == i,
                        forall|j: int| 0 <= j < i ==> #[trigger] out@[j]@ == v@[j]@,
                    decreases v.len() - i,
                {
                    proof {
                        lemma_element_smaller(*self, i as int);
                    }
                    let c = v[i].copy();
                    out.push(c);
                    i = i + 1;
                }
                proof {
                    lemma_list_model(*v);
                    lemma_list_model(out);
                    assert(models(out@) =~= models(v@));
                }
                RispExp::List(out)
            },
        }
    }

    /// The display form of this expression.
    pub fn to_text(&self) -> (r: String)
        ensures
            r@ == display(self@),
        decreases self,
    {
        match self {
            RispExp::Symbol(s) => s.clone(),
            RispExp::Number(n) => number_text(*n),
            RispExp::Command(_) => {
                proof { reveal_strlit("Function {}"); }
                String::from_str("Function {}")
            },
            RispExp::List(v) => {
                proof {
                    lemma_list_model(*v);
                    reveal_strlit("(");
                    reveal_strlit(")");
                    reveal_strlit(",");
                }
                let ghost xs = models(v@);
                let mut out = String::from_str("(");
                let mut i: usize = 0;
                while i < v.len()
                    invariant
                        *self == RispExp::List(*v),
                        i <= v.len(),
                        xs == models(v@),
                        out@ == seq!['('] + join(xs.take(i as int), ','),
                    decreases v.len() - i,
                {
                    proof {
                        lemma_element_smaller(*self, i as int);
                    }
                    let t = v[i].to_text();
                    proof {
                        assert(xs.take(i + 1).drop_last() =~= xs.take(i as int));
                        assert(xs.take(i + 1)[i as int] == xs[i as int]);
                    }
                    proof {
                        reveal_strlit(",");
                    }
                    if i > 0 {
                        out.append(",");
                    }
                    out.append(t.as_str());
                    proof {
                        if i == 0 {
                            assert(join(xs.take(1), ',') == render(xs[0], ','));
                        } else {
                            assert(join(xs.take(i + 1), ',') == join(xs.take(i as int), ',')
                                + seq![','] + render(xs[i as int], ','));
                        }
                        assert(out@ =~= seq!['('] + join(xs.take(i + 1), ','));
                    }
                    i = i + 1;
                }
                out.append(")");
                proof {
                    assert(xs.take(v.len() as int) =~= xs);
                }
                out
            },
        }
    }
}

} // verus!
