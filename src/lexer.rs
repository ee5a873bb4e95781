use vstd::prelude::*;

verus! {

/// Whether `c` has Unicode's White_Space property.
pub open spec fn is_space(c: char) -> bool {
    let u = c as u32;
    ||| 0x09 <= u <= 0x0D
    ||| u == 0x20
    ||| u == 0x85
    ||| u == 0xA0
    ||| u == 0x1680
    ||| 0x2000 <= u <= 0x200A
    ||| u == 0x2028
    ||| u == 0x2029
    ||| u == 0x202F
    ||| u == 0x205F
    ||| u == 0x3000
}

pub open spec fn is_paren(c: char) -> bool {
    c == '(' || c == ')'
}

/// The tokens read so far, and the atom being read.
pub type LexState = (Seq<Seq<char>>, Seq<char>);

/// The tokens, with the atom being read closed off if it is not empty.
pub open spec fn flush(toks: Seq<Seq<char>>, cur: Seq<char>) -> Seq<Seq<char>> {
    if cur.len() == 0 {
        toks
    } else {
        toks.push(cur)
    }
}

/// One character more: a parenthesis is a token of its own, white space
/// ends the atom being read, anything else extends it.
pub open spec fn lex_step(st: LexState, c: char) -> LexState {
    if is_paren(c) {
        (flush(st.0, st.1).push(seq![c]), seq![])
    } else if is_space(c) {
        (flush(st.0, st.1), seq![])
    } else {
        (st.0, st.1.push(c))
    }
}

/// The state after reading `s` from `st`.
pub open spec fn lex_from(st: LexState, s: Seq<char>) -> LexState
    decreases s.len(),
{
    if s.len() == 0 {
        st
    } else {
        lex_step(lex_from(st, s.drop_last()), s.last())
    }
}

/// The tokens of `s`: each parenthesis, and each maximal run of characters
/// that are neither parentheses nor white space.
pub open spec fn tokens_of(s: Seq<char>) -> Seq<Seq<char>> {
    let st = lex_from((seq![], seq![]), s);
    flush(st.0, st.1)
}

/// The texts of a sequence of strings.
pub open spec fn texts(v: Seq<String>) -> Seq<Seq<char>> {
    Seq::new(v.len(), |i: int| v[i]@)
}

/// Whether `c` is white space, as `char::is_whitespace` decides it.
pub fn is_whitespace_char(c: char) -> (r: bool)
    ensures
        r == is_space(c),
{
    let u = c as u32;
    (0x09 <= u && u <= 0x0D) || u == 0x20 || u == 0x85 || u == 0xA0 || u == 0x1680 || (0x2000 <= u
        && u <= 0x200A) || u == 0x2028 || u == 0x2029 || u == 0x202F || u == 0x205F || u == 0x3000
}

/// Appends the atom `s[start..end]` to `toks`, if it is not empty.
fn close_atom(toks: &mut Vec<String>, s: &str, start: usize, end: usize)
    requires
        start <= end <= s@.len(),
    ensures
        texts(final(toks)@) == flush(texts(old(toks)@), s@.subrange(start as int, end as int)),
{
    if start < end {
        let atom = String::from_str(s.substring_char(start, end));
        toks.push(atom);
        proof {
            assert(texts(final(toks)@) =~= texts(old(toks)@).push(s@.subrange(start as int, end as int)));
        }
    } else {
        proof {
            assert(texts(final(toks)@) =~= texts(old(toks)@));
        }
    }
}

/// Splits `expr` into tokens: `(`, `)`, and the runs of other characters
/// between them and white space.
pub fn tokenize(expr: String) -> (r: Vec<String>)
    ensures
        texts(r@) == tokens_of(expr@),
{
    let s = expr.as_str();
    let n = s.unicode_len();
    let mut toks: Vec<String> = Vec::new();
    let mut start: usize = 0;
    let mut i: usize = 0;
    proof {
        assert(s@.take(0) =~= seq![]);
        assert(texts(toks@) =~= seq![]);
    }
    while i < n
        invariant
            n == s@.len(),
            s@ == expr@,
            start <= i <= n,
            texts(toks@) == lex_from((seq![], seq![]), s@.take(i as int)).0,
            s@.subrange(start as int, i as int) == lex_from((seq![], seq![]), s@.take(i as int)).1,
        decreases n - i,
    {
        let c = s.get_char(i);
        proof {
            assert(s@.take(i + 1).drop_last() =~= s@.take(i as int));
            assert(s@.take(i + 1).last() == c);
        }
        if c == '(' || c == ')' {
            close_atom(&mut toks, s, start, i);
            let p = if c == '(' {
                String::from_str("(")
            } else {
                String::from_str(")")
            };
            proof {
                reveal_strlit("(");
                reveal_strlit(")");
                assert(p@ =~= seq![c]);
            }
            let ghost before = texts(toks@);
            toks.push(p);
            proof {
                assert(texts(toks@) =~= before.push(seq![c]));
            }
            start = i + 1;
        } else if is_whitespace_char(c) {
            close_atom(&mut toks, s, start, i);
            start = i + 1;
        } else {
            proof {
                assert(s@.subrange(start as int, i + 1) =~= s@.subrange(start as int, i as int).push(c));
            }
        }
        i = i + 1;
        proof {
            assert(s@.subrange(i as int, i as int) =~= seq![]);
        }
    }
    close_atom(&mut toks, s, start, n);
    proof {
        assert(s@.take(n as int) =~= s@);
    }
    toks
}

} // verus!
