use vstd::prelude::*;

use crate::lexer::{TokenType, is_number_char, is_white, lex_from, run_end, tokenize_spec, trimmed, valid_number};
use crate::pipeline::{lexeme_kinds, lexeme_syms};
use crate::render::{joined, kind_char, lemma_joined_concat, rendering, sym_text};
use crate::parser::{
    MAX_DEPTH, p_expr, p_expr_rest, p_parse, p_pow, p_pow_rest, p_primary, p_term, p_term_rest,
};
use crate::tree::{
    Expr, ExprOpt, Parenthesese, Pow, PowOpts, Sign, Sym, Term, TermOpt, expr_opts_syms, expr_syms,
    pow_opts_syms, pow_syms, primary_syms, term_opts_syms, term_syms,
};

verus! {

/// Every parenthesized expression in `e`, entered from nesting depth `d`,
/// stands at most `MAX_DEPTH` deep.
pub open spec fn expr_fits(e: Expr, d: int) -> bool
    decreases e, 0int,
{
    term_fits(e.term, d) && expr_opts_fit(e.expr_opts@, 0, d)
}

pub open spec fn expr_opts_fit(s: Seq<ExprOpt>, n: int, d: int) -> bool
    decreases s, s.len() - n,
{
    n < 0 || n >= s.len() || (term_fits(s[n].term, d) && expr_opts_fit(s, n + 1, d))
}

pub open spec fn term_fits(t: Term, d: int) -> bool
    decreases t, 0int,
{
    pow_fits(t.pow, d) && term_opts_fit(t.term_opts@, 0, d)
}

pub open spec fn term_opts_fit(s: Seq<TermOpt>, n: int, d: int) -> bool
    decreases s, s.len() - n,
{
    n < 0 || n >= s.len() || (pow_fits(s[n].pow, d) && term_opts_fit(s, n + 1, d))
}

pub open spec fn pow_fits(p: Pow, d: int) -> bool
    decreases p, 0int,
{
    primary_fits(p.parentheses, d) && pow_opts_fit(p.pow_opts@, 0, d)
}

pub open spec fn pow_opts_fit(s: Seq<PowOpts>, n: int, d: int) -> bool
    decreases s, s.len() - n,
{
    n < 0 || n >= s.len() || (primary_fits(s[n].parenthesese, d) && pow_opts_fit(s, n + 1, d))
}

pub open spec fn primary_fits(p: Parenthesese, d: int) -> bool
    decreases p, 0int,
{
    match p {
        Parenthesese::Num(_) => true,
        Parenthesese::Expr(b) => d < MAX_DEPTH && expr_fits(*b, d + 1),
    }
}

/// The kinds of a sequence of grammar tokens.
pub open spec fn sym_kinds(ss: Seq<Sym>) -> Seq<TokenType> {
    ss.map_values(|x: Sym| x.0)
}

/// `ss` stands in `k` from index `i` on.
pub open spec fn placed(k: Seq<TokenType>, i: int, ss: Seq<Sym>) -> bool {
    0 <= i && i + ss.len() <= k.len() && k.subrange(i, i + ss.len()) == sym_kinds(ss)
}

/// A token after which no expression goes on.
pub open spec fn ends_expr(t: TokenType) -> bool {
    t != TokenType::Add && t != TokenType::Sub && ends_term(t)
}

/// A token after which no term goes on.
pub open spec fn ends_term(t: TokenType) -> bool {
    t != TokenType::Mult && t != TokenType::Div && t != TokenType::Pow
}

proof fn lemma_placed_split(k: Seq<TokenType>, i: int, a: Seq<Sym>, b: Seq<Sym>)
    requires
        placed(k, i, a + b),
    ensures
        placed(k, i, a),
        placed(k, i + a.len(), b),
{
    assert(k.subrange(i, i + a.len()) =~= sym_kinds(a + b).subrange(0, a.len() as int));
    assert(sym_kinds(a) =~= sym_kinds(a + b).subrange(0, a.len() as int));
    assert(k.subrange(i + a.len(), i + a.len() + b.len()) =~= sym_kinds(a + b).subrange(
        a.len() as int,
        (a.len() + b.len()) as int,
    ));
    assert(sym_kinds(b) =~= sym_kinds(a + b).subrange(a.len() as int, (a.len() + b.len()) as int));
}

/// The kind of the first token of `ss`, read where `ss` stands.
proof fn lemma_placed_first(k: Seq<TokenType>, i: int, ss: Seq<Sym>)
    requires
        placed(k, i, ss),
        ss.len() > 0,
    ensures
        k[i] == ss[0].0,
{
    assert(k.subrange(i, i + ss.len())[0] == sym_kinds(ss)[0]);
}

proof fn lemma_primary_first(p: Parenthesese)
    ensures
        primary_syms(p).len() > 0,
        primary_syms(p)[0].0 == TokenType::Num || primary_syms(p)[0].0 == TokenType::LeftParen,
{
}

proof fn lemma_term_first(t: Term)
    ensures
        term_syms(t).len() > 0,
        term_syms(t)[0].0 == TokenType::Num || term_syms(t)[0].0 == TokenType::LeftParen,
{
    lemma_primary_first(t.pow.parentheses);
    let a = primary_syms(t.pow.parentheses);
    let b = pow_opts_syms(t.pow.pow_opts@, 0);
    assert((a + b)[0] == a[0]);
    let c = term_opts_syms(t.term_opts@, 0);
    assert(((a + b) + c)[0] == (a + b)[0]);
}

proof fn lemma_primary(k: Seq<TokenType>, i: int, d: int, p: Parenthesese)
    requires
        placed(k, i, primary_syms(p)),
        primary_fits(p, d),
        0 <= d,
    ensures
        p_primary(k, i, d) == Ok::<int, crate::parser::Failure>(i + primary_syms(p).len()),
    decreases p, 0int,
{
    lemma_placed_first(k, i, primary_syms(p));
    match p {
        Parenthesese::Num(_) => {},
        Parenthesese::Expr(b) => {
            let inner = expr_syms(*b);
            let open = seq![crate::tree::sym(TokenType::LeftParen)];
            let close = seq![crate::tree::sym(TokenType::RightParen)];
            lemma_placed_split(k, i, open + inner, close);
            lemma_placed_split(k, i, open, inner);
            lemma_placed_first(k, i + 1 + inner.len(), close);
            lemma_expr(k, i + 1, d + 1, *b);
        },
    }
}

proof fn lemma_pow_rest(k: Seq<TokenType>, i: int, d: int, s: Seq<PowOpts>, n: int)
    requires
        0 <= n <= s.len(),
        placed(k, i, pow_opts_syms(s, n)),
        crate::parser::at(k, i + pow_opts_syms(s, n).len()) != TokenType::Pow,
        pow_opts_fit(s, n, d),
        0 <= d,
    ensures
        p_pow_rest(k, i, d) == Ok::<int, crate::parser::Failure>(i + pow_opts_syms(s, n).len()),
    decreases s, s.len() - n,
{
    if n < s.len() {
        let head = seq![crate::tree::sym(TokenType::Pow)];
        let prim = primary_syms(s[n].parenthesese);
        let rest = pow_opts_syms(s, n + 1);
        assert(pow_opts_syms(s, n) == head + prim + rest);
        lemma_placed_split(k, i, head + prim, rest);
        lemma_placed_split(k, i, head, prim);
        lemma_placed_first(k, i, head);
        lemma_primary(k, i + 1, d, s[n].parenthesese);
        lemma_pow_rest(k, i + 1 + prim.len(), d, s, n + 1);
    }
}

proof fn lemma_pow(k: Seq<TokenType>, i: int, d: int, p: Pow)
    requires
        placed(k, i, pow_syms(p)),
        crate::parser::at(k, i + pow_syms(p).len()) != TokenType::Pow,
        pow_fits(p, d),
        0 <= d,
    ensures
        p_pow(k, i, d) == Ok::<int, crate::parser::Failure>(i + pow_syms(p).len()),
    decreases p, 0int,
{
    let prim = primary_syms(p.parentheses);
    let rest = pow_opts_syms(p.pow_opts@, 0);
    lemma_primary_first(p.parentheses);
    lemma_placed_split(k, i, prim, rest);
    lemma_primary(k, i, d, p.parentheses);
    lemma_pow_rest(k, i + prim.len(), d, p.pow_opts@, 0);
}

proof fn lemma_term_rest(k: Seq<TokenType>, i: int, d: int, s: Seq<TermOpt>, n: int)
    requires
        0 <= n <= s.len(),
        placed(k, i, term_opts_syms(s, n)),
        ends_term(crate::parser::at(k, i + term_opts_syms(s, n).len())),
        term_opts_fit(s, n, d),
        0 <= d,
    ensures
        p_term_rest(k, i, d) == Ok::<int, crate::parser::Failure>(i + term_opts_syms(s, n).len()),
    decreases s, s.len() - n,
{
    if n < s.len() {
        let head = seq![crate::tree::mul_sym(s[n].operation)];
        let pw = pow_syms(s[n].pow);
        let rest = term_opts_syms(s, n + 1);
        assert(term_opts_syms(s, n) == head + pw + rest);
        lemma_placed_split(k, i, head + pw, rest);
        lemma_placed_split(k, i, head, pw);
        lemma_placed_first(k, i, head);
        if n + 1 < s.len() {
            lemma_placed_first(k, i + 1 + pw.len(), rest);
        }
        lemma_pow(k, i + 1, d, s[n].pow);
        lemma_term_rest(k, i + 1 + pw.len(), d, s, n + 1);
    }
}

proof fn lemma_term(k: Seq<TokenType>, i: int, d: int, t: Term)
    requires
        placed(k, i, term_syms(t)),
        ends_term(crate::parser::at(k, i + term_syms(t).len())),
        term_fits(t, d),
        0 <= d,
    ensures
        p_term(k, i, d) == Ok::<int, crate::parser::Failure>(i + term_syms(t).len()),
    decreases t, 0int,
{
    let pw = pow_syms(t.pow);
    let rest = term_opts_syms(t.term_opts@, 0);
    lemma_term_first(t);
    lemma_placed_split(k, i, pw, rest);
    if t.term_opts@.len() > 0 {
        lemma_placed_first(k, i + pw.len(), rest);
    }
    lemma_pow(k, i, d, t.pow);
    lemma_term_rest(k, i + pw.len(), d, t.term_opts@, 0);
}

proof fn lemma_expr_rest(k: Seq<TokenType>, i: int, d: int, s: Seq<ExprOpt>, n: int)
    requires
        0 <= n <= s.len(),
        placed(k, i, expr_opts_syms(s, n)),
        ends_expr(crate::parser::at(k, i + expr_opts_syms(s, n).len())),
        expr_opts_fit(s, n, d),
        0 <= d,
    ensures
        p_expr_rest(k, i, d) == Ok::<int, crate::parser::Failure>(i + expr_opts_syms(s, n).len()),
    decreases s, s.len() - n,
{
    if n < s.len() {
        let head = seq![crate::tree::add_sym(s[n].operation)];
        let tm = term_syms(s[n].term);
        let rest = expr_opts_syms(s, n + 1);
        assert(expr_opts_syms(s, n) == head + tm + rest);
        lemma_placed_split(k, i, head + tm, rest);
        lemma_placed_split(k, i, head, tm);
        lemma_placed_first(k, i, head);
        if n + 1 < s.len() {
            lemma_placed_first(k, i + 1 + tm.len(), rest);
        }
        lemma_term(k, i + 1, d, s[n].term);
        lemma_expr_rest(k, i + 1 + tm.len(), d, s, n + 1);
    }
}

proof fn lemma_expr(k: Seq<TokenType>, i: int, d: int, e: Expr)
    requires
        placed(k, i, expr_syms(e)),
        ends_expr(crate::parser::at(k, i + expr_syms(e).len())),
        expr_fits(e, d),
        0 <= d,
    ensures
        p_expr(k, i, d) == Ok::<int, crate::parser::Failure>(i + expr_syms(e).len()),
    decreases e, 0int,
{
    let sg = crate::tree::sign_syms(e.operation);
    let tm = term_syms(e.term);
    let rest = expr_opts_syms(e.expr_opts@, 0);
    lemma_term_first(e.term);
    lemma_placed_split(k, i, sg + tm, rest);
    lemma_placed_split(k, i, sg, tm);
    if e.operation == Sign::Negative {
        lemma_placed_first(k, i, sg);
    }
    lemma_placed_first(k, i + sg.len(), tm);
    if e.expr_opts@.len() > 0 {
        lemma_placed_first(k, i + sg.len() + tm.len(), rest);
    }
    lemma_term(k, i + sg.len(), d, e.term);
    lemma_expr_rest(k, i + sg.len() + tm.len(), d, e.expr_opts@, 0);
}

/// Every tree whose parentheses nest at most `MAX_DEPTH` deep is read back
/// from its own tokens: the grammar accepts them, closed by end of input,
/// and stops exactly at that end.
pub proof fn law_tree_tokens_parse_back(e: Expr)
    requires
        expr_fits(e, 0),
    ensures
        p_parse(sym_kinds(expr_syms(e)).push(TokenType::EOF), 0) == Ok::<int, crate::parser::Failure>(
            expr_syms(e).len() as int,
        ),
{
    let k = sym_kinds(expr_syms(e)).push(TokenType::EOF);
    assert(k.subrange(0, expr_syms(e).len() as int) =~= sym_kinds(expr_syms(e)));
    lemma_expr(k, 0, 0, e);
}

/// A number text as the tokenizer reads it: digits and points only, forming
/// a decimal.
pub open spec fn number_text(t: Seq<char>) -> bool {
    (forall|j: int| 0 <= j < t.len() ==> is_number_char(#[trigger] t[j])) && valid_number(t)
}

/// A token as a tree holds it: a number with its text, or an operator or a
/// parenthesis without one.
pub open spec fn tree_sym(x: Sym) -> bool {
    match x.1 {
        Some(_) => x.0 == TokenType::Num,
        None => x.0 != TokenType::Num && x.0 != TokenType::EOF,
    }
}

pub open spec fn tree_syms(ss: Seq<Sym>) -> bool {
    forall|i: int| 0 <= i < ss.len() ==> tree_sym(#[trigger] ss[i])
}

/// Every number of `ss` has a text that reads as a decimal.
pub open spec fn numbers_valid(ss: Seq<Sym>) -> bool {
    forall|i: int| 0 <= i < ss.len() && (#[trigger] ss[i]).1 is Some ==> number_text(ss[i].1->Some_0)
}

proof fn lemma_tree_syms_concat(a: Seq<Sym>, b: Seq<Sym>)
    requires
        tree_syms(a),
        tree_syms(b),
    ensures
        tree_syms(a + b),
{
    assert forall|i: int| 0 <= i < (a + b).len() implies tree_sym(#[trigger] (a + b)[i]) by {
        if i < a.len() {
            assert((a + b)[i] == a[i]);
        } else {
            assert((a + b)[i] == b[i - a.len()]);
        }
    }
}

proof fn lemma_shape_primary(p: Parenthesese)
    ensures
        tree_syms(primary_syms(p)),
    decreases p, 0int,
{
    match p {
        Parenthesese::Num(_) => {},
        Parenthesese::Expr(b) => {
            lemma_shape_expr(*b);
            let open = seq![crate::tree::sym(TokenType::LeftParen)];
            let close = seq![crate::tree::sym(TokenType::RightParen)];
            lemma_tree_syms_concat(open, expr_syms(*b));
            lemma_tree_syms_concat(open + expr_syms(*b), close);
        },
    }
}

proof fn lemma_shape_pow_opts(s: Seq<PowOpts>, n: int)
    ensures
        tree_syms(pow_opts_syms(s, n)),
    decreases s, s.len() - n,
{
    if 0 <= n < s.len() {
        let head = seq![crate::tree::sym(TokenType::Pow)];
        lemma_shape_primary(s[n].parenthesese);
        lemma_shape_pow_opts(s, n + 1);
        lemma_tree_syms_concat(head, primary_syms(s[n].parenthesese));
        lemma_tree_syms_concat(head + primary_syms(s[n].parenthesese), pow_opts_syms(s, n + 1));
    }
}

proof fn lemma_shape_pow(p: Pow)
    ensures
        tree_syms(pow_syms(p)),
    decreases p, 0int,
{
    lemma_shape_primary(p.parentheses);
    lemma_shape_pow_opts(p.pow_opts@, 0);
    lemma_tree_syms_concat(primary_syms(p.parentheses), pow_opts_syms(p.pow_opts@, 0));
}

proof fn lemma_shape_term_opts(s: Seq<TermOpt>, n: int)
    ensures
        tree_syms(term_opts_syms(s, n)),
    decreases s, s.len() - n,
{
    if 0 <= n < s.len() {
        let head = seq![crate::tree::mul_sym(s[n].operation)];
        lemma_shape_pow(s[n].pow);
        lemma_shape_term_opts(s, n + 1);
        lemma_tree_syms_concat(head, pow_syms(s[n].pow));
        lemma_tree_syms_concat(head + pow_syms(s[n].pow), term_opts_syms(s, n + 1));
    }
}

proof fn lemma_shape_term(t: Term)
    ensures
        tree_syms(term_syms(t)),
    decreases t, 0int,
{
    lemma_shape_pow(t.pow);
    lemma_shape_term_opts(t.term_opts@, 0);
    lemma_tree_syms_concat(pow_syms(t.pow), term_opts_syms(t.term_opts@, 0));
}

proof fn lemma_shape_expr_opts(s: Seq<ExprOpt>, n: int)
    ensures
        tree_syms(expr_opts_syms(s, n)),
    decreases s, s.len() - n,
{
    if 0 <= n < s.len() {
        let head = seq![crate::tree::add_sym(s[n].operation)];
        lemma_shape_term(s[n].term);
        lemma_shape_expr_opts(s, n + 1);
        lemma_tree_syms_concat(head, term_syms(s[n].term));
        lemma_tree_syms_concat(head + term_syms(s[n].term), expr_opts_syms(s, n + 1));
    }
}

proof fn lemma_shape_expr(e: Expr)
    ensures
        tree_syms(expr_syms(e)),
    decreases e, 0int,
{
    let sg = crate::tree::sign_syms(e.operation);
    lemma_shape_term(e.term);
    lemma_shape_expr_opts(e.expr_opts@, 0);
    lemma_tree_syms_concat(sg, term_syms(e.term));
    lemma_tree_syms_concat(sg + term_syms(e.term), expr_opts_syms(e.expr_opts@, 0));
}

proof fn lemma_run_end(s: Seq<char>, i: int, e: int)
    requires
        0 <= i <= e <= s.len(),
        forall|j: int| i <= j < e ==> is_number_char(#[trigger] s[j]),
        e == s.len() || !is_number_char(s[e]),
    ensures
        run_end(s, i) == e,
    decreases e - i,
{
    if i < e {
        lemma_run_end(s, i + 1, e);
    }
}

/// The written form of a token starts with a character that is no white space.
proof fn lemma_sym_text_edges(x: Sym)
    requires
        tree_sym(x),
        x.1 is Some ==> number_text(x.1->Some_0),
    ensures
        sym_text(x).len() > 0,
        !is_white(sym_text(x)[0]),
        !is_white(sym_text(x).last()),
{
    if let Some(t) = x.1 {
        if t.len() == 0 {
            assert(crate::lexer::digits(t) == 0);
        }
        assert(is_number_char(t[0]));
        assert(is_number_char(t[t.len() - 1]));
    }
}

/// Tokenizing the space-separated text of tree tokens gives those tokens back.
#[verifier::rlimit(60)]
proof fn lemma_lex_joined(s: Seq<char>, i: int, ss: Seq<Sym>)
    requires
        0 <= i <= s.len(),
        tree_syms(ss),
        numbers_valid(ss),
        ss.len() == 0 ==> i == s.len(),
        ss.len() > 0 ==> s.subrange(i, s.len() as int) == joined(ss).drop_last(),
    ensures
        lex_from(s, i) is Ok,
        lexeme_syms(lex_from(s, i)->Ok_0) == ss.push((TokenType::EOF, None::<Seq<char>>)),
    decreases ss.len(),
{
    if ss.len() == 0 {
        assert(lexeme_syms(lex_from(s, i)->Ok_0) =~= ss.push((TokenType::EOF, None::<Seq<char>>)));
    } else {
        let x = ss[0];
        let rest = ss.drop_first();
        let t = sym_text(x);
        let l = t.len() as int;
        assert(tree_sym(ss[0]));
        assert(x.1 is Some ==> number_text(x.1->Some_0));
        lemma_sym_text_edges(x);
        assert(joined(ss) == t + seq![' '] + joined(rest));
        assert forall|j: int| 0 <= j < rest.len() implies tree_sym(#[trigger] rest[j]) by {
            assert(rest[j] == ss[j + 1]);
        }
        assert forall|j: int| 0 <= j < rest.len() && (#[trigger] rest[j]).1 is Some implies number_text(
            rest[j].1->Some_0,
        ) by {
            assert(rest[j] == ss[j + 1]);
        }
        if rest.len() == 0 {
            assert(joined(rest) =~= Seq::<char>::empty());
            assert(joined(ss).drop_last() =~= t);
        } else {
            assert(joined(ss).drop_last() =~= t + seq![' '] + joined(rest).drop_last());
        }
        assert forall|j: int| 0 <= j < l implies s[i + j] == #[trigger] t[j] by {
            assert(s.subrange(i, s.len() as int)[j] == s[i + j]);
        }
        assert(i + l <= s.len());
        if rest.len() == 0 {
            assert(i + l == s.len());
        } else {
            assert(s.subrange(i, s.len() as int)[l] == s[i + l]);
            assert(s[i + l] == ' ');
            let jr = joined(rest).drop_last();
            assert(s.subrange(i, s.len() as int) =~= t + seq![' '] + jr);
            assert forall|j: int| 0 <= j < jr.len() implies #[trigger] s.subrange(
                i + l + 1,
                s.len() as int,
            )[j] == jr[j] by {
                assert(s.subrange(i, s.len() as int)[l + 1 + j] == jr[j]);
            }
            assert(s.subrange(i + l + 1, s.len() as int) =~= jr);
        }
        lemma_lex_joined(s, if rest.len() == 0 {
            i + l
        } else {
            i + l + 1
        }, rest);
        let next = i + l;
        assert(lex_from(s, next) == lex_from(s, if rest.len() == 0 {
            i + l
        } else {
            i + l + 1
        }));
        let tail = lex_from(s, next)->Ok_0;
        assert(s[i] == t[0]);
        if let Some(text) = x.1 {
            assert forall|j: int| i <= j < i + l implies is_number_char(#[trigger] s[j]) by {
                assert(s[j] == t[j - i]);
            }
            lemma_run_end(s, i, i + l);
            assert(s.subrange(i, i + l) =~= text);
            assert(lex_from(s, i) == Ok::<Seq<crate::lexer::Lexeme>, crate::lexer::LexError>(
                seq![(TokenType::Num, Some(text), i)] + tail,
            ));
            assert(x == (TokenType::Num, Some(text)));
            assert(lexeme_syms(seq![(TokenType::Num, Some(text), i)] + tail) =~= seq![x]
                + lexeme_syms(tail));
            assert(seq![x] + rest.push((TokenType::EOF, None::<Seq<char>>)) =~= ss.push(
                (TokenType::EOF, None::<Seq<char>>),
            ));
        } else {
            let k = x.0;
            assert(crate::lexer::symbol_kind(kind_char(k)) == Some(k));
            assert(lex_from(s, i) == Ok::<Seq<crate::lexer::Lexeme>, crate::lexer::LexError>(
                seq![(k, None::<Seq<char>>, i)] + tail,
            ));
            assert(lexeme_syms(seq![(k, None::<Seq<char>>, i)] + tail) =~= seq![x] + lexeme_syms(
                tail,
            ));
            assert(seq![x] + rest.push((TokenType::EOF, None::<Seq<char>>)) =~= ss.push(
                (TokenType::EOF, None::<Seq<char>>),
            ));
        }
    }
}

/// A text whose first and last characters are no white space is its own
/// trimmed form.
proof fn lemma_trimmed_unchanged(s: Seq<char>)
    requires
        s.len() > 0,
        !is_white(s[0]),
        !is_white(s.last()),
    ensures
        trimmed(s) == s,
{
    assert(s.subrange(0, s.len() as int) =~= s);
}

/// Re-tokenizing the canonical rendering of a tree gives back the tree's own
/// tokens, closed by end of input, and the grammar accepts them whole; so
/// parsing the rendering yields a tree written with the same tokens.
pub proof fn law_rendering_reads_back(e: Expr)
    requires
        expr_fits(e, 0),
        numbers_valid(expr_syms(e)),
    ensures
        tokenize_spec(rendering(e)) is Ok,
        lexeme_syms(tokenize_spec(rendering(e))->Ok_0) == expr_syms(e).push(
            (TokenType::EOF, None::<Seq<char>>),
        ),
        p_parse(lexeme_kinds(tokenize_spec(rendering(e))->Ok_0), 0) == Ok::<int, crate::parser::Failure>(
            expr_syms(e).len() as int,
        ),
{
    let ss = expr_syms(e);
    let r = rendering(e);
    lemma_shape_expr(e);
    lemma_expr_nonempty(e);
    let front = ss.drop_last();
    let last = ss.last();
    assert(tree_sym(ss[0]));
    assert(ss[0].1 is Some ==> number_text(ss[0].1->Some_0));
    assert(tree_sym(ss[ss.len() - 1]));
    assert(ss[ss.len() - 1].1 is Some ==> number_text(ss[ss.len() - 1].1->Some_0));
    lemma_sym_text_edges(ss[0]);
    lemma_sym_text_edges(last);
    assert(joined(ss) == sym_text(ss[0]) + seq![' '] + joined(ss.drop_first()));
    assert(r[0] == sym_text(ss[0])[0]);
    assert(front + seq![last] =~= ss);
    lemma_joined_concat(front, seq![last]);
    let one = seq![last];
    assert(one.drop_first() =~= Seq::<Sym>::empty());
    assert(joined(one.drop_first()) =~= Seq::<char>::empty());
    assert(joined(one) =~= sym_text(last) + seq![' '] + joined(one.drop_first()));
    assert(r.last() == sym_text(last).last());
    lemma_trimmed_unchanged(r);
    assert(r.subrange(0, r.len() as int) =~= r);
    lemma_lex_joined(r, 0, ss);
    assert(tokenize_spec(r) == lex_from(r, 0));
    let ls = tokenize_spec(r)->Ok_0;
    let target = ss.push((TokenType::EOF, None::<Seq<char>>));
    assert(lexeme_syms(ls) == target);
    assert(ls.len() == target.len());
    assert forall|i: int| 0 <= i < ls.len() implies #[trigger] lexeme_kinds(ls)[i] == sym_kinds(
        ss,
    ).push(TokenType::EOF)[i] by {
        assert(lexeme_syms(ls)[i] == target[i]);
        if i < ss.len() {
            assert(target[i] == ss[i]);
        }
    }
    assert(lexeme_kinds(ls) =~= sym_kinds(ss).push(TokenType::EOF));
    law_tree_tokens_parse_back(e);
}

proof fn lemma_expr_nonempty(e: Expr)
    ensures
        expr_syms(e).len() > 0,
{
    lemma_term_first(e.term);
}

/// A term that is one number alone: no `*`, `/` or `^`, no parentheses.
pub open spec fn bare_number(t: Term) -> bool {
    t.term_opts@.len() == 0 && t.pow.pow_opts@.len() == 0 && t.pow.parentheses is Num
}

/// Tokens that are numbers, `+` and `-` only.
pub open spec fn sums_only(ss: Seq<Sym>) -> bool {
    forall|i: int|
        0 <= i < ss.len() ==> (#[trigger] ss[i]).0 == TokenType::Num || ss[i].0 == TokenType::Add
            || ss[i].0 == TokenType::Sub
}

proof fn lemma_sums_only_split(a: Seq<Sym>, b: Seq<Sym>)
    requires
        sums_only(a + b),
    ensures
        sums_only(a),
        sums_only(b),
{
    assert forall|i: int| 0 <= i < a.len() implies (#[trigger] a[i]).0 == TokenType::Num || a[i].0
        == TokenType::Add || a[i].0 == TokenType::Sub by {
        assert((a + b)[i] == a[i]);
    }
    assert forall|i: int| 0 <= i < b.len() implies (#[trigger] b[i]).0 == TokenType::Num || b[i].0
        == TokenType::Add || b[i].0 == TokenType::Sub by {
        assert((a + b)[a.len() + i] == b[i]);
    }
}

proof fn lemma_bare_term(t: Term)
    requires
        sums_only(term_syms(t)),
    ensures
        bare_number(t),
{
    let prim = primary_syms(t.pow.parentheses);
    let po = pow_opts_syms(t.pow.pow_opts@, 0);
    let to = term_opts_syms(t.term_opts@, 0);
    lemma_sums_only_split(prim + po, to);
    lemma_sums_only_split(prim, po);
    assert(prim[0] == primary_syms(t.pow.parentheses)[0]);
    if t.term_opts@.len() > 0 {
        assert(to[0] == crate::tree::mul_sym(t.term_opts@[0].operation));
    }
    if t.pow.pow_opts@.len() > 0 {
        assert(po[0] == crate::tree::sym(TokenType::Pow));
    }
}

proof fn lemma_bare_expr_opts(s: Seq<ExprOpt>, n: int)
    requires
        0 <= n,
        sums_only(expr_opts_syms(s, n)),
    ensures
        forall|m: int| n <= m < s.len() ==> bare_number(#[trigger] s[m].term),
    decreases s.len() - n,
{
    if n < s.len() {
        let head = seq![crate::tree::add_sym(s[n].operation)];
        lemma_sums_only_split(head + term_syms(s[n].term), expr_opts_syms(s, n + 1));
        lemma_sums_only_split(head, term_syms(s[n].term));
        lemma_bare_term(s[n].term);
        lemma_bare_expr_opts(s, n + 1);
    }
}

/// An expression written with numbers, `+` and `-` alone has a bare number
/// for each of its terms: its value is the left-to-right sum and difference
/// of those numbers, the first negated under a leading minus.
pub proof fn law_sums_have_bare_terms(e: Expr)
    requires
        sums_only(expr_syms(e)),
    ensures
        bare_number(e.term),
        forall|m: int| 0 <= m < e.expr_opts@.len() ==> bare_number(#[trigger] e.expr_opts@[m].term),
{
    let sg = crate::tree::sign_syms(e.operation);
    lemma_sums_only_split(sg + term_syms(e.term), expr_opts_syms(e.expr_opts@, 0));
    lemma_sums_only_split(sg, term_syms(e.term));
    lemma_bare_term(e.term);
    lemma_bare_expr_opts(e.expr_opts@, 0);
}

pub(crate) proof fn lemma_expr_opts_fit_push(s: Seq<ExprOpt>, x: ExprOpt, n: int, d: int)
    requires
        0 <= n <= s.len(),
    ensures
        expr_opts_fit(s.push(x), n, d) == (expr_opts_fit(s, n, d) && term_fits(x.term, d)),
    decreases s.len() - n,
{
    if n < s.len() {
        lemma_expr_opts_fit_push(s, x, n + 1, d);
        assert(s.push(x)[n] == s[n]);
    } else {
        assert(s.push(x)[n] == x);
        assert(expr_opts_fit(s.push(x), n + 1, d));
    }
}

pub(crate) proof fn lemma_term_opts_fit_push(s: Seq<TermOpt>, x: TermOpt, n: int, d: int)
    requires
        0 <= n <= s.len(),
    ensures
        term_opts_fit(s.push(x), n, d) == (term_opts_fit(s, n, d) && pow_fits(x.pow, d)),
    decreases s.len() - n,
{
    if n < s.len() {
        lemma_term_opts_fit_push(s, x, n + 1, d);
        assert(s.push(x)[n] == s[n]);
    } else {
        assert(s.push(x)[n] == x);
        assert(term_opts_fit(s.push(x), n + 1, d));
    }
}

pub(crate) proof fn lemma_pow_opts_fit_push(s: Seq<PowOpts>, x: PowOpts, n: int, d: int)
    requires
        0 <= n <= s.len(),
    ensures
        pow_opts_fit(s.push(x), n, d) == (pow_opts_fit(s, n, d) && primary_fits(x.parenthesese, d)),
    decreases s.len() - n,
{
    if n < s.len() {
        lemma_pow_opts_fit_push(s, x, n + 1, d);
        assert(s.push(x)[n] == s[n]);
    } else {
        assert(s.push(x)[n] == x);
        assert(pow_opts_fit(s.push(x), n + 1, d));
    }
}

/// `e1` and `e2` are the same tree: same signs, operators and number texts,
/// in the same shape.
pub open spec fn same_expr(e1: Expr, e2: Expr) -> bool
    decreases e1, 0int,
{
    e1.operation == e2.operation && same_term(e1.term, e2.term) && same_expr_opts(
        e1.expr_opts@,
        e2.expr_opts@,
        0,
    )
}

pub open spec fn same_expr_opts(s1: Seq<ExprOpt>, s2: Seq<ExprOpt>, n: int) -> bool
    decreases s1, s1.len() - n,
{
    if n < 0 {
        false
    } else if n >= s1.len() || n >= s2.len() {
        n >= s1.len() && n >= s2.len()
    } else {
        s1[n].operation == s2[n].operation && same_term(s1[n].term, s2[n].term) && same_expr_opts(
            s1,
            s2,
            n + 1,
        )
    }
}

pub open spec fn same_term(t1: Term, t2: Term) -> bool
    decreases t1, 0int,
{
    same_pow(t1.pow, t2.pow) && same_term_opts(t1.term_opts@, t2.term_opts@, 0)
}

pub open spec fn same_term_opts(s1: Seq<TermOpt>, s2: Seq<TermOpt>, n: int) -> bool
    decreases s1, s1.len() - n,
{
    if n < 0 {
        false
    } else if n >= s1.len() || n >= s2.len() {
        n >= s1.len() && n >= s2.len()
    } else {
        s1[n].operation == s2[n].operation && same_pow(s1[n].pow, s2[n].pow) && same_term_opts(
            s1,
            s2,
            n + 1,
        )
    }
}

pub open spec fn same_pow(p1: Pow, p2: Pow) -> bool
    decreases p1, 0int,
{
    same_primary(p1.parentheses, p2.parentheses) && same_pow_opts(p1.pow_opts@, p2.pow_opts@, 0)
}

pub open spec fn same_pow_opts(s1: Seq<PowOpts>, s2: Seq<PowOpts>, n: int) -> bool
    decreases s1, s1.len() - n,
{
    if n < 0 {
        false
    } else if n >= s1.len() || n >= s2.len() {
        n >= s1.len() && n >= s2.len()
    } else {
        same_primary(s1[n].parenthesese, s2[n].parenthesese) && same_pow_opts(s1, s2, n + 1)
    }
}

pub open spec fn same_primary(p1: Parenthesese, p2: Parenthesese) -> bool
    decreases p1, 0int,
{
    match (p1, p2) {
        (Parenthesese::Num(t1), Parenthesese::Num(t2)) => t1@ == t2@,
        (Parenthesese::Expr(b1), Parenthesese::Expr(b2)) => same_expr(*b1, *b2),
        _ => false,
    }
}

/// `ss` stands in `full` from index `i` on.
pub open spec fn on(full: Seq<Sym>, i: int, ss: Seq<Sym>) -> bool {
    0 <= i && i + ss.len() <= full.len() && full.subrange(i, i + ss.len()) == ss
}

proof fn lemma_on(full: Seq<Sym>, i: int, ss: Seq<Sym>)
    requires
        on(full, i, ss),
    ensures
        placed(sym_kinds(full), i, ss),
        forall|j: int| 0 <= j < ss.len() ==> #[trigger] ss[j] == full[i + j],
{
    assert forall|j: int| 0 <= j < ss.len() implies #[trigger] ss[j] == full[i + j] by {
        assert(full.subrange(i, i + ss.len())[j] == full[i + j]);
    }
    assert(sym_kinds(full).subrange(i, i + ss.len()) =~= sym_kinds(ss));
}

proof fn lemma_on_split(full: Seq<Sym>, i: int, a: Seq<Sym>, b: Seq<Sym>)
    requires
        on(full, i, a + b),
    ensures
        on(full, i, a),
        on(full, i + a.len(), b),
{
    assert(full.subrange(i, i + a.len()) =~= (a + b).subrange(0, a.len() as int));
    assert(a =~= (a + b).subrange(0, a.len() as int));
    assert(full.subrange(i + a.len(), i + a.len() + b.len()) =~= (a + b).subrange(
        a.len() as int,
        (a.len() + b.len()) as int,
    ));
    assert(b =~= (a + b).subrange(a.len() as int, (a.len() + b.len()) as int));
}

/// Two pieces of equal length that stand at one place are equal.
proof fn lemma_on_same(full: Seq<Sym>, i: int, a: Seq<Sym>, b: Seq<Sym>)
    requires
        on(full, i, a),
        on(full, i, b),
        a.len() == b.len(),
    ensures
        a == b,
{
}

proof fn lemma_inj_primary(full: Seq<Sym>, i: int, d: int, p1: Parenthesese, p2: Parenthesese)
    requires
        on(full, i, primary_syms(p1)),
        on(full, i, primary_syms(p2)),
        primary_fits(p1, d),
        primary_fits(p2, d),
        0 <= d,
    ensures
        same_primary(p1, p2),
        primary_syms(p1) == primary_syms(p2),
    decreases p1, 0int,
{
    lemma_on(full, i, primary_syms(p1));
    lemma_on(full, i, primary_syms(p2));
    assert(primary_syms(p1)[0] == full[i]);
    assert(primary_syms(p2)[0] == full[i]);
    match (p1, p2) {
        (Parenthesese::Expr(b1), Parenthesese::Expr(b2)) => {
            let k = sym_kinds(full);
            lemma_primary(k, i, d, p1);
            lemma_primary(k, i, d, p2);
            let open = seq![crate::tree::sym(TokenType::LeftParen)];
            let close = seq![crate::tree::sym(TokenType::RightParen)];
            lemma_on_split(full, i, open + expr_syms(*b1), close);
            lemma_on_split(full, i, open, expr_syms(*b1));
            lemma_on_split(full, i, open + expr_syms(*b2), close);
            lemma_on_split(full, i, open, expr_syms(*b2));
            lemma_on(full, i + 1 + expr_syms(*b1).len(), close);
            lemma_on(full, i + 1 + expr_syms(*b2).len(), close);
            assert(close[0] == full[i + 1 + expr_syms(*b1).len()]);
            lemma_inj_expr(full, i + 1, d + 1, *b1, *b2);
        },
        _ => {},
    }
}

proof fn lemma_inj_pow_opts(full: Seq<Sym>, i: int, d: int, s1: Seq<PowOpts>, s2: Seq<PowOpts>, n: int)
    requires
        0 <= n,
        on(full, i, pow_opts_syms(s1, n)),
        on(full, i, pow_opts_syms(s2, n)),
        crate::parser::at(sym_kinds(full), i + pow_opts_syms(s1, n).len()) != TokenType::Pow,
        crate::parser::at(sym_kinds(full), i + pow_opts_syms(s2, n).len()) != TokenType::Pow,
        pow_opts_fit(s1, n, d),
        pow_opts_fit(s2, n, d),
        0 <= d,
    ensures
        same_pow_opts(s1, s2, n),
        pow_opts_syms(s1, n) == pow_opts_syms(s2, n),
    decreases s1, s1.len() - n,
{
    let k = sym_kinds(full);
    lemma_on(full, i, pow_opts_syms(s1, n));
    lemma_on(full, i, pow_opts_syms(s2, n));
    if n < s1.len() {
        assert(pow_opts_syms(s1, n)[0] == crate::tree::sym(TokenType::Pow));
        assert(k[i] == full[i].0);
    }
    if n < s2.len() {
        assert(pow_opts_syms(s2, n)[0] == crate::tree::sym(TokenType::Pow));
        assert(k[i] == full[i].0);
    }
    if n < s1.len() && n < s2.len() {
        let head = seq![crate::tree::sym(TokenType::Pow)];
        let a1 = primary_syms(s1[n].parenthesese);
        let a2 = primary_syms(s2[n].parenthesese);
        lemma_on_split(full, i, head + a1, pow_opts_syms(s1, n + 1));
        lemma_on_split(full, i, head, a1);
        lemma_on_split(full, i, head + a2, pow_opts_syms(s2, n + 1));
        lemma_on_split(full, i, head, a2);
        lemma_inj_primary(full, i + 1, d, s1[n].parenthesese, s2[n].parenthesese);
        lemma_inj_pow_opts(full, i + 1 + a1.len(), d, s1, s2, n + 1);
    }
}

proof fn lemma_inj_pow(full: Seq<Sym>, i: int, d: int, p1: Pow, p2: Pow)
    requires
        on(full, i, pow_syms(p1)),
        on(full, i, pow_syms(p2)),
        crate::parser::at(sym_kinds(full), i + pow_syms(p1).len()) != TokenType::Pow,
        crate::parser::at(sym_kinds(full), i + pow_syms(p2).len()) != TokenType::Pow,
        pow_fits(p1, d),
        pow_fits(p2, d),
        0 <= d,
    ensures
        same_pow(p1, p2),
        pow_syms(p1) == pow_syms(p2),
    decreases p1, 0int,
{
    let a1 = primary_syms(p1.parentheses);
    let a2 = primary_syms(p2.parentheses);
    lemma_on_split(full, i, a1, pow_opts_syms(p1.pow_opts@, 0));
    lemma_on_split(full, i, a2, pow_opts_syms(p2.pow_opts@, 0));
    lemma_inj_primary(full, i, d, p1.parentheses, p2.parentheses);
    lemma_inj_pow_opts(full, i + a1.len(), d, p1.pow_opts@, p2.pow_opts@, 0);
}

proof fn lemma_inj_term_opts(full: Seq<Sym>, i: int, d: int, s1: Seq<TermOpt>, s2: Seq<TermOpt>, n: int)
    requires
        0 <= n,
        on(full, i, term_opts_syms(s1, n)),
        on(full, i, term_opts_syms(s2, n)),
        ends_term(crate::parser::at(sym_kinds(full), i + term_opts_syms(s1, n).len())),
        ends_term(crate::parser::at(sym_kinds(full), i + term_opts_syms(s2, n).len())),
        term_opts_fit(s1, n, d),
        term_opts_fit(s2, n, d),
        0 <= d,
    ensures
        same_term_opts(s1, s2, n),
        term_opts_syms(s1, n) == term_opts_syms(s2, n),
    decreases s1, s1.len() - n,
{
    let k = sym_kinds(full);
    lemma_on(full, i, term_opts_syms(s1, n));
    lemma_on(full, i, term_opts_syms(s2, n));
    if n < s1.len() {
        assert(term_opts_syms(s1, n)[0] == crate::tree::mul_sym(s1[n].operation));
        assert(k[i] == full[i].0);
    }
    if n < s2.len() {
        assert(term_opts_syms(s2, n)[0] == crate::tree::mul_sym(s2[n].operation));
        assert(k[i] == full[i].0);
    }
    if n < s1.len() && n < s2.len() {
        let h1 = seq![crate::tree::mul_sym(s1[n].operation)];
        let h2 = seq![crate::tree::mul_sym(s2[n].operation)];
        let a1 = pow_syms(s1[n].pow);
        let a2 = pow_syms(s2[n].pow);
        let r1 = term_opts_syms(s1, n + 1);
        let r2 = term_opts_syms(s2, n + 1);
        lemma_on_split(full, i, h1 + a1, r1);
        lemma_on_split(full, i, h1, a1);
        lemma_on_split(full, i, h2 + a2, r2);
        lemma_on_split(full, i, h2, a2);
        if n + 1 < s1.len() {
            lemma_on(full, i + 1 + a1.len(), r1);
            assert(r1[0] == full[i + 1 + a1.len()]);
        }
        if n + 1 < s2.len() {
            lemma_on(full, i + 1 + a2.len(), r2);
            assert(r2[0] == full[i + 1 + a2.len()]);
        }
        lemma_inj_pow(full, i + 1, d, s1[n].pow, s2[n].pow);
        lemma_inj_term_opts(full, i + 1 + a1.len(), d, s1, s2, n + 1);
    }
}

proof fn lemma_inj_term(full: Seq<Sym>, i: int, d: int, t1: Term, t2: Term)
    requires
        on(full, i, term_syms(t1)),
        on(full, i, term_syms(t2)),
        ends_term(crate::parser::at(sym_kinds(full), i + term_syms(t1).len())),
        ends_term(crate::parser::at(sym_kinds(full), i + term_syms(t2).len())),
        term_fits(t1, d),
        term_fits(t2, d),
        0 <= d,
    ensures
        same_term(t1, t2),
        term_syms(t1) == term_syms(t2),
    decreases t1, 0int,
{
    let a1 = pow_syms(t1.pow);
    let a2 = pow_syms(t2.pow);
    let r1 = term_opts_syms(t1.term_opts@, 0);
    let r2 = term_opts_syms(t2.term_opts@, 0);
    lemma_on_split(full, i, a1, r1);
    lemma_on_split(full, i, a2, r2);
    if t1.term_opts@.len() > 0 {
        lemma_on(full, i + a1.len(), r1);
        assert(r1[0] == full[i + a1.len()]);
    }
    if t2.term_opts@.len() > 0 {
        lemma_on(full, i + a2.len(), r2);
        assert(r2[0] == full[i + a2.len()]);
    }
    lemma_inj_pow(full, i, d, t1.pow, t2.pow);
    lemma_inj_term_opts(full, i + a1.len(), d, t1.term_opts@, t2.term_opts@, 0);
}

proof fn lemma_inj_expr_opts(full: Seq<Sym>, i: int, d: int, s1: Seq<ExprOpt>, s2: Seq<ExprOpt>, n: int)
    requires
        0 <= n,
        on(full, i, expr_opts_syms(s1, n)),
        on(full, i, expr_opts_syms(s2, n)),
        ends_expr(crate::parser::at(sym_kinds(full), i + expr_opts_syms(s1, n).len())),
        ends_expr(crate::parser::at(sym_kinds(full), i + expr_opts_syms(s2, n).len())),
        expr_opts_fit(s1, n, d),
        expr_opts_fit(s2, n, d),
        0 <= d,
    ensures
        same_expr_opts(s1, s2, n),
        expr_opts_syms(s1, n) == expr_opts_syms(s2, n),
    decreases s1, s1.len() - n,
{
    let k = sym_kinds(full);
    lemma_on(full, i, expr_opts_syms(s1, n));
    lemma_on(full, i, expr_opts_syms(s2, n));
    if n < s1.len() {
        assert(expr_opts_syms(s1, n)[0] == crate::tree::add_sym(s1[n].operation));
        assert(k[i] == full[i].0);
    }
    if n < s2.len() {
        assert(expr_opts_syms(s2, n)[0] == crate::tree::add_sym(s2[n].operation));
        assert(k[i] == full[i].0);
    }
    if n < s1.len() && n < s2.len() {
        let h1 = seq![crate::tree::add_sym(s1[n].operation)];
        let h2 = seq![crate::tree::add_sym(s2[n].operation)];
        let a1 = term_syms(s1[n].term);
        let a2 = term_syms(s2[n].term);
        let r1 = expr_opts_syms(s1, n + 1);
        let r2 = expr_opts_syms(s2, n + 1);
        lemma_on_split(full, i, h1 + a1, r1);
        lemma_on_split(full, i, h1, a1);
        lemma_on_split(full, i, h2 + a2, r2);
        lemma_on_split(full, i, h2, a2);
        if n + 1 < s1.len() {
            lemma_on(full, i + 1 + a1.len(), r1);
            assert(r1[0] == full[i + 1 + a1.len()]);
        }
        if n + 1 < s2.len() {
            lemma_on(full, i + 1 + a2.len(), r2);
            assert(r2[0] == full[i + 1 + a2.len()]);
        }
        lemma_inj_term(full, i + 1, d, s1[n].term, s2[n].term);
        lemma_inj_expr_opts(full, i + 1 + a1.len(), d, s1, s2, n + 1);
    }
}

proof fn lemma_inj_expr(full: Seq<Sym>, i: int, d: int, e1: Expr, e2: Expr)
    requires
        on(full, i, expr_syms(e1)),
        on(full, i, expr_syms(e2)),
        ends_expr(crate::parser::at(sym_kinds(full), i + expr_syms(e1).len())),
        ends_expr(crate::parser::at(sym_kinds(full), i + expr_syms(e2).len())),
        expr_fits(e1, d),
        expr_fits(e2, d),
        0 <= d,
    ensures
        same_expr(e1, e2),
        expr_syms(e1) == expr_syms(e2),
    decreases e1, 0int,
{
    let g1 = crate::tree::sign_syms(e1.operation);
    let g2 = crate::tree::sign_syms(e2.operation);
    let a1 = term_syms(e1.term);
    let a2 = term_syms(e2.term);
    let r1 = expr_opts_syms(e1.expr_opts@, 0);
    let r2 = expr_opts_syms(e2.expr_opts@, 0);
    lemma_on_split(full, i, g1 + a1, r1);
    lemma_on_split(full, i, g1, a1);
    lemma_on_split(full, i, g2 + a2, r2);
    lemma_on_split(full, i, g2, a2);
    lemma_term_first(e1.term);
    lemma_term_first(e2.term);
    lemma_on(full, i + g1.len(), a1);
    lemma_on(full, i + g2.len(), a2);
    lemma_on(full, i, g1);
    lemma_on(full, i, g2);
    assert(a1[0] == full[i + g1.len()]);
    assert(a2[0] == full[i + g2.len()]);
    if e1.operation == Sign::Negative {
        assert(g1[0] == full[i]);
    }
    if e2.operation == Sign::Negative {
        assert(g2[0] == full[i]);
    }
    assert(e1.operation == e2.operation);
    if e1.expr_opts@.len() > 0 {
        lemma_on(full, i + g1.len() + a1.len(), r1);
        assert(r1[0] == full[i + g1.len() + a1.len()]);
    }
    if e2.expr_opts@.len() > 0 {
        lemma_on(full, i + g2.len() + a2.len(), r2);
        assert(r2[0] == full[i + g2.len() + a2.len()]);
    }
    lemma_inj_term(full, i + g1.len(), d, e1.term, e2.term);
    lemma_inj_expr_opts(full, i + g1.len() + a1.len(), d, e1.expr_opts@, e2.expr_opts@, 0);
}

/// Trees that nest within `MAX_DEPTH` are told apart by their tokens: two
/// such trees written with the same tokens are the same tree.
pub proof fn law_same_tokens_same_tree(e1: Expr, e2: Expr)
    requires
        expr_fits(e1, 0),
        expr_fits(e2, 0),
        expr_syms(e1) == expr_syms(e2),
    ensures
        same_expr(e1, e2),
{
    let full = expr_syms(e1);
    assert(full.subrange(0, full.len() as int) =~= full);
    lemma_inj_expr(full, 0, 0, e1, e2);
}

/// Rendering a parsed tree and parsing the text again gives the same tree.
/// `e` meets the two conditions whenever `parse_text` returned it; `again`
/// is any tree that `parse_text` may return on the rendering, as its
/// contract states (so it also has the same value).
pub proof fn law_reparse_same_tree(e: Expr, again: Expr)
    requires
        expr_fits(e, 0),
        numbers_valid(expr_syms(e)),
        expr_fits(again, 0),
        tokenize_spec(rendering(e)) is Ok,
        expr_syms(again) == lexeme_syms(tokenize_spec(rendering(e))->Ok_0).drop_last(),
    ensures
        same_expr(again, e),
{
    law_rendering_reads_back(e);
    let ss = expr_syms(e);
    assert(ss.push((TokenType::EOF, None::<Seq<char>>)).drop_last() =~= ss);
    law_same_tokens_same_tree(again, e);
}

} // verus!
