use vstd::prelude::*;
use crate::expr::{Builtin, Fault, RispErr, RispExp, Sexp, models};

verus! {

/// Whether `v` lies in the range of `i32`.
pub open spec fn in_i32(v: int) -> bool {
    i32::MIN <= v <= i32::MAX
}

/// The sum of `xs` taken from the left, or `None` where a partial sum
/// leaves the range of `i32`.
pub open spec fn checked_sum(xs: Seq<i32>) -> Option<i32>
    decreases xs.len(),
{
    if xs.len() == 0 {
        Some(0)
    } else {
        match checked_sum(xs.drop_last()) {
            Some(s) => if in_i32(s + xs.last()) {
                Some((s + xs.last()) as i32)
            } else {
                None
            },
            None => None,
        }
    }
}

pub open spec fn all_numbers(args: Seq<Sexp>) -> bool {
    forall|i: int| 0 <= i < args.len() ==> #[trigger] args[i] is Num
}

/// The values of a sequence of numbers.
pub open spec fn numbers(args: Seq<Sexp>) -> Seq<i32> {
    Seq::new(args.len(), |i: int| args[i]->Num_0)
}

/// What a built-in command returns on evaluated arguments.
pub open spec fn apply_spec(b: Builtin, args: Seq<Sexp>) -> Result<Sexp, Fault> {
    if !all_numbers(args) {
        Err(Fault::TypeError)
    } else {
        let ns = numbers(args);
        match b {
            Builtin::Add => match checked_sum(ns) {
                Some(s) => Ok(Sexp::Num(s)),
                None => Err(Fault::Overflow),
            },
            Builtin::Sub => if ns.len() == 0 {
                Err(Fault::ArityError)
            } else {
                match checked_sum(ns.drop_first()) {
                    Some(s) => if in_i32(ns[0] - s) {
                        Ok(Sexp::Num((ns[0] - s) as i32))
                    } else {
                        Err(Fault::Overflow)
                    },
                    None => Err(Fault::Overflow),
                }
            },
        }
    }
}

/// Once a partial sum overflows, every longer one does.
pub proof fn lemma_overflow_persists(xs: Seq<i32>, i: int, k: int)
    requires
        0 <= i <= k <= xs.len(),
        checked_sum(xs.take(i)) is None,
    ensures
        checked_sum(xs.take(k)) is None,
    decreases k - i,
{
    if i < k {
        lemma_overflow_persists(xs, i, k - 1);
        assert(xs.take(k).drop_last() =~= xs.take(k - 1));
    }
}

/// The sum of `ns`, checked at every step.
fn checked_total(ns: &[i32]) -> (r: Option<i32>)
    ensures
        r == checked_sum(ns@),
{
    let mut acc: i32 = 0;
    let mut i: usize = 0;
    proof {
        assert(ns@.take(0) =~= seq![]);
    }
    while i < ns.len()
        invariant
            i <= ns@.len(),
            checked_sum(ns@.take(i as int)) == Some(acc),
        decreases ns@.len() - i,
    {
        proof {
            assert(ns@.take(i + 1).drop_last() =~= ns@.take(i as int));
        }
        let t: i64 = acc as i64 + ns[i] as i64;
        if t < i32::MIN as i64 || t > i32::MAX as i64 {
            proof {
                lemma_overflow_persists(ns@, i + 1, ns@.len() as int);
                assert(ns@.take(ns@.len() as int) =~= ns@);
            }
            return None;
        }
        acc = t as i32;
        i = i + 1;
    }
    proof {
        assert(ns@.take(ns@.len() as int) =~= ns@);
    }
    Some(acc)
}

/// The value of a number; any other expression is a `TypeError`.
pub fn parse_single_int(exp: &RispExp) -> (r: Result<i32, RispErr>)
    ensures
        match exp@ {
            Sexp::Num(n) => r == Ok::<i32, RispErr>(n),
            _ => r matches Err(f) && f@ == Fault::TypeError,
        },
{
    match exp {
        RispExp::Number(num) => Ok(*num),
        _ => Err(RispErr::TypeError),
    }
}

/// The values of `args`, if all of them are numbers; a `TypeError`
/// otherwise.
pub fn parse_list_of_ints(args: &[RispExp]) -> (r: Result<Vec<i32>, RispErr>)
    ensures
        all_numbers(models(args@)) ==> (r matches Ok(v) && v@ == numbers(models(args@))),
        !all_numbers(models(args@)) ==> (r matches Err(f) && f@ == Fault::TypeError),
{
    let ghost ms = models(args@);
    let mut out: Vec<i32> = Vec::new();
    let mut i: usize = 0;
    while i < args.len()
        invariant
            i <= args@.len(),
            ms == models(args@),
            out@ =~= numbers(ms.take(i as int)),
            all_numbers(ms.take(i as int)),
        decreases args@.len() - i,
    {
        match parse_single_int(&args[i]) {
            Ok(n) => {
                out.push(n);
                proof {
                    assert(ms.take(i + 1) =~= ms.take(i as int).push(ms[i as int]));
                    assert(out@ =~= numbers(ms.take(i + 1)));
                }
            },
            Err(f) => {
                proof {
                    assert(!(ms[i as int] is Num));
                }
                return Err(f);
            },
        }
        i = i + 1;
    }
    proof {
        assert(ms.take(args@.len() as int) =~= ms);
    }
    Ok(out)
}

impl Builtin {
    /// Applies this command to evaluated arguments.
    pub fn invoke(&self, args: &[RispExp]) -> (r: Result<RispExp, RispErr>)
        ensures
            crate::expr::outcome(r) == apply_spec(*self, models(args@)),
    {
        let ns = match parse_list_of_ints(args) {
            Ok(ns) => ns,
            Err(f) => {
                return Err(f);
            },
        };
        match self {
            Builtin::Add => match checked_total(ns.as_slice()) {
                Some(s) => Ok(RispExp::Number(s)),
                None => Err(RispErr::Overflow),
            },
            Builtin::Sub => {
                if ns.len() == 0 {
                    return Err(RispErr::ArityError);
                }
                let first = ns[0];
                let rest = &ns.as_slice()[1..ns.len()];
                proof {
                    assert(rest@ =~= ns@.drop_first());
                }
                match checked_total(rest) {
                    Some(s) => {
                        let t: i64 = first as i64 - s as i64;
                        if t < i32::MIN as i64 || t > i32::MAX as i64 {
                            Err(RispErr::Overflow)
                        } else {
                            Ok(RispExp::Number(t as i32))
                        }
                    },
                    None => Err(RispErr::Overflow),
                }
            },
        }
    }
}

/// The binding table: a symbol's value is that of its last binding.
pub open spec fn bindings_map(s: Seq<(String, RispExp)>) -> Map<Seq<char>, Sexp>
    decreases s.len(),
{
    if s.len() == 0 {
        Map::empty()
    } else {
        bindings_map(s.drop_last()).insert(s.last().0@, s.last().1@)
    }
}

/// Names bound to expressions.
pub struct Environment {
    data: Vec<(String, RispExp)>,
}

impl View for Environment {
    type V = Map<Seq<char>, Sexp>;

    closed spec fn view(&self) -> Map<Seq<char>, Sexp> {
        bindings_map(self.data@)
    }
}

/// What looking up `name` gives.
pub open spec fn lookup_spec(env: Map<Seq<char>, Sexp>, name: Seq<char>) -> Result<Sexp, Fault> {
    if env.contains_key(name) {
        Ok(env[name])
    } else {
        Err(Fault::UnboundSymbol(name))
    }
}

/// Bindings after position `i` that do not bind `k` do not change what
/// `k` is bound to.
proof fn lemma_unbound_suffix(s: Seq<(String, RispExp)>, i: int, k: Seq<char>)
    requires
        0 <= i <= s.len(),
        forall|j: int| i <= j < s.len() ==> (#[trigger] s[j]).0@ != k,
    ensures
        bindings_map(s).contains_key(k) == bindings_map(s.take(i)).contains_key(k),
        bindings_map(s).contains_key(k) ==> bindings_map(s)[k] == bindings_map(s.take(i))[k],
    decreases s.len() - i,
{
    if i < s.len() {
        assert(s.drop_last().take(i) =~= s.take(i));
        lemma_unbound_suffix(s.drop_last(), i, k);
    } else {
        assert(s.take(i) =~= s);
    }
}

/// The environment that binds `+` and `-` to their commands.
pub open spec fn default_bindings() -> Map<Seq<char>, Sexp> {
    Map::empty().insert(seq!['+'], Sexp::Cmd(Builtin::Add)).insert(seq!['-'], Sexp::Cmd(Builtin::Sub))
}

/// An environment with `+` and `-` bound to their commands.
pub fn default_env() -> (r: Environment)
    ensures
        r@ == default_bindings(),
{
    let mut data: Vec<(String, RispExp)> = Vec::new();
    data.push((String::from_str("+"), RispExp::Command(Builtin::Add)));
    data.push((String::from_str("-"), RispExp::Command(Builtin::Sub)));
    proof {
        reveal_strlit("+");
        reveal_strlit("-");
        assert(data@.drop_last().drop_last() =~= seq![]);
        assert(data@[0].0@ =~= seq!['+']);
        assert(data@[1].0@ =~= seq!['-']);
        let s = data@;
        assert(bindings_map(s.drop_last().drop_last()) == Map::<Seq<char>, Sexp>::empty());
        assert(bindings_map(s.drop_last()) == bindings_map(s.drop_last().drop_last()).insert(
            s[0].0@,
            s[0].1@,
        ));
        assert(bindings_map(s) == bindings_map(s.drop_last()).insert(s[1].0@, s[1].1@));
        assert(bindings_map(data@) =~= default_bindings());
    }
    Environment { data }
}

impl Environment {
    /// A copy of what `name` is bound to.
    pub fn lookup(&self, name: &String) -> (r: Result<RispExp, RispErr>)
        ensures
            crate::expr::outcome(r) == lookup_spec(self@, name@),
    {
        let mut i: usize = self.data.len();
        while i > 0
            invariant
                i <= self.data@.len(),
                forall|j: int| i <= j < self.data@.len() ==> (#[trigger] self.data@[j]).0@ != name@,
            decreases i,
        {
            let (k, v) = &self.data[i - 1];
            if *k == *name {
                let r = v.copy();
                proof {
                    let s = self.data@;
                    lemma_unbound_suffix(s, i as int, name@);
                    assert(s.take(i as int).drop_last() =~= s.take(i - 1));
                }
                return Ok(r);
            }
            i = i - 1;
        }
        proof {
            lemma_unbound_suffix(self.data@, 0, name@);
            assert(self.data@.take(0) =~= seq![]);
        }
        Err(RispErr::UnboundSymbol(name.clone()))
    }
}

} // verus!
