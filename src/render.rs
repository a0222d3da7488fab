use vstd::prelude::*;

use crate::lexer::TokenType;
use crate::tree::{
    AddOp, Expr, ExprOpt, MulOp, Parenthesese, Pow, PowOpts, Sign, Sym, Term, TermOpt,
    expr_opts_syms, expr_syms, pow_opts_syms, pow_syms, primary_syms, term_opts_syms, term_syms,
};

verus! {

/// The character an operator or parenthesis is written with.
pub open spec fn kind_char(k: TokenType) -> char {
    match k {
        TokenType::Add => '+',
        TokenType::Sub => '-',
        TokenType::Mult => '*',
        TokenType::Div => '/',
        TokenType::Pow => '^',
        TokenType::LeftParen => '(',
        TokenType::RightParen => ')',
        _ => ' ',
    }
}

/// How a token is written: a number by its text, any other by its character.
pub open spec fn sym_text(x: Sym) -> Seq<char> {
    match x.1 {
        Some(t) => t,
        None => seq![kind_char(x.0)],
    }
}

/// Each token written, followed by one space.
pub open spec fn joined(ss: Seq<Sym>) -> Seq<char>
    decreases ss.len(),
{
    if ss.len() == 0 {
        Seq::empty()
    } else {
        sym_text(ss[0]) + seq![' '] + joined(ss.drop_first())
    }
}

/// The canonical text of a tree: its tokens, separated by single spaces.
pub open spec fn rendering(e: Expr) -> Seq<char> {
    joined(expr_syms(e)).drop_last()
}

pub proof fn lemma_joined_concat(a: Seq<Sym>, b: Seq<Sym>)
    ensures
        joined(a + b) == joined(a) + joined(b),
    decreases a.len(),
{
    if a.len() == 0 {
        assert(a + b =~= b);
    } else {
        assert((a + b).drop_first() =~= a.drop_first() + b);
        lemma_joined_concat(a.drop_first(), b);
    }
}

fn push_text(out: &mut Vec<char>, t: &Vec<char>)
    ensures
        final(out)@ == old(out)@ + t@ + seq![' '],
{
    let mut i: usize = 0;
    let ghost start = out@;
    while i < t.len()
        invariant
            i <= t@.len(),
            out@ == start + t@.subrange(0, i as int),
        decreases t@.len() - i,
    {
        out.push(t[i]);
        i = i + 1;
        assert(out@ =~= start + t@.subrange(0, i as int));
    }
    out.push(' ');
    assert(t@.subrange(0, t@.len() as int) =~= t@);
}

fn push_char(out: &mut Vec<char>, c: char)
    ensures
        final(out)@ == old(out)@ + seq![c] + seq![' '],
{
    out.push(c);
    out.push(' ');
    assert(out@ =~= old(out)@ + seq![c] + seq![' ']);
}

proof fn lemma_joined_one(x: Sym)
    ensures
        joined(seq![x]) == sym_text(x) + seq![' '],
{
    let rest = seq![x].drop_first();
    assert(rest =~= Seq::<Sym>::empty());
    assert(joined(rest) =~= Seq::<char>::empty());
    assert(seq![x][0] == x);
    assert(joined(seq![x]) =~= sym_text(x) + seq![' '] + joined(rest));
}

fn render_expr(e: &Expr, out: &mut Vec<char>)
    ensures
        final(out)@ == old(out)@ + joined(expr_syms(*e)),
    decreases *e, 0int,
{
    let ghost sg = crate::tree::sign_syms(e.operation);
    let ghost tm = term_syms(e.term);
    let ghost rest = expr_opts_syms(e.expr_opts@, 0);
    if e.operation == Sign::Negative {
        push_char(out, '-');
        proof {
            lemma_joined_one(crate::tree::sym(TokenType::Sub));
        }
    } else {
        assert(joined(sg) =~= Seq::<char>::empty());
    }
    render_term(&e.term, out);
    render_expr_opts(&e.expr_opts, 0, out);
    proof {
        lemma_joined_concat(sg, tm);
        lemma_joined_concat(sg + tm, rest);
        assert(final(out)@ =~= old(out)@ + joined(expr_syms(*e)));
    }
}

fn render_expr_opts(s: &Vec<ExprOpt>, n: usize, out: &mut Vec<char>)
    requires
        n <= s@.len(),
    ensures
        final(out)@ == old(out)@ + joined(expr_opts_syms(s@, n as int)),
    decreases s@, s@.len() - n,
{
    if n < s.len() {
        let c = if s[n].operation == AddOp::Add {
            '+'
        } else {
            '-'
        };
        push_char(out, c);
        render_term(&s[n].term, out);
        render_expr_opts(s, n + 1, out);
        proof {
            let head = seq![crate::tree::add_sym(s@[n as int].operation)];
            let tm = term_syms(s@[n as int].term);
            lemma_joined_one(head[0]);
            lemma_joined_concat(head, tm);
            lemma_joined_concat(head + tm, expr_opts_syms(s@, n + 1));
            assert(final(out)@ =~= old(out)@ + joined(expr_opts_syms(s@, n as int)));
        }
    } else {
        assert(final(out)@ =~= old(out)@ + joined(expr_opts_syms(s@, n as int)));
    }
}

fn render_term(t: &Term, out: &mut Vec<char>)
    ensures
        final(out)@ == old(out)@ + joined(term_syms(*t)),
    decreases *t, 0int,
{
    render_pow(&t.pow, out);
    render_term_opts(&t.term_opts, 0, out);
    proof {
        lemma_joined_concat(pow_syms(t.pow), term_opts_syms(t.term_opts@, 0));
        assert(final(out)@ =~= old(out)@ + joined(term_syms(*t)));
    }
}

fn render_term_opts(s: &Vec<TermOpt>, n: usize, out: &mut Vec<char>)
    requires
        n <= s@.len(),
    ensures
        final(out)@ == old(out)@ + joined(term_opts_syms(s@, n as int)),
    decreases s@, s@.len() - n,
{
    if n < s.len() {
        let c = if s[n].operation == MulOp::Mul {
            '*'
        } else {
            '/'
        };
        push_char(out, c);
        render_pow(&s[n].pow, out);
        render_term_opts(s, n + 1, out);
        proof {
            let head = seq![crate::tree::mul_sym(s@[n as int].operation)];
            let pw = pow_syms(s@[n as int].pow);
            lemma_joined_one(head[0]);
            lemma_joined_concat(head, pw);
            lemma_joined_concat(head + pw, term_opts_syms(s@, n + 1));
            assert(final(out)@ =~= old(out)@ + joined(term_opts_syms(s@, n as int)));
        }
    } else {
        assert(final(out)@ =~= old(out)@ + joined(term_opts_syms(s@, n as int)));
    }
}

fn render_pow(p: &Pow, out: &mut Vec<char>)
    ensures
        final(out)@ == old(out)@ + joined(pow_syms(*p)),
    decreases *p, 0int,
{
    render_primary(&p.parentheses, out);
    render_pow_opts(&p.pow_opts, 0, out);
    proof {
        lemma_joined_concat(primary_syms(p.parentheses), pow_opts_syms(p.pow_opts@, 0));
        assert(final(out)@ =~= old(out)@ + joined(pow_syms(*p)));
    }
}

fn render_pow_opts(s: &Vec<PowOpts>, n: usize, out: &mut Vec<char>)
    requires
        n <= s@.len(),
    ensures
        final(out)@ == old(out)@ + joined(pow_opts_syms(s@, n as int)),
    decreases s@, s@.len() - n,
{
    if n < s.len() {
        push_char(out, '^');
        render_primary(&s[n].parenthesese, out);
        render_pow_opts(s, n + 1, out);
        proof {
            let head = seq![crate::tree::sym(TokenType::Pow)];
            let pr = primary_syms(s@[n as int].parenthesese);
            lemma_joined_one(head[0]);
            lemma_joined_concat(head, pr);
            lemma_joined_concat(head + pr, pow_opts_syms(s@, n + 1));
            assert(final(out)@ =~= old(out)@ + joined(pow_opts_syms(s@, n as int)));
        }
    } else {
        assert(final(out)@ =~= old(out)@ + joined(pow_opts_syms(s@, n as int)));
    }
}

fn render_primary(p: &Parenthesese, out: &mut Vec<char>)
    ensures
        final(out)@ == old(out)@ + joined(primary_syms(*p)),
    decreases *p, 0int,
{
    match p {
        Parenthesese::Num(t) => {
            push_text(out, t);
            proof {
                lemma_joined_one(primary_syms(*p)[0]);
            }
        },
        Parenthesese::Expr(b) => {
            push_char(out, '(');
            render_expr(b, out);
            push_char(out, ')');
            proof {
                let open = seq![crate::tree::sym(TokenType::LeftParen)];
                let close = seq![crate::tree::sym(TokenType::RightParen)];
                lemma_joined_one(open[0]);
                lemma_joined_one(close[0]);
                lemma_joined_concat(open, expr_syms(**b));
                lemma_joined_concat(open + expr_syms(**b), close);
                assert(final(out)@ =~= old(out)@ + joined(primary_syms(*p)));
            }
        },
    }
}

/// The canonical text of `e`: its tokens, each number by its own text,
/// separated by single spaces.
pub fn render(e: &Expr) -> (r: Vec<char>)
    ensures
        r@ == rendering(*e),
{
    let mut out: Vec<char> = Vec::new();
    render_expr(e, &mut out);
    assert(out@ =~= joined(expr_syms(*e)));
    out.pop();
    out
}

} // verus!
