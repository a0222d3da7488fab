use vstd::prelude::*;

use crate::lexer::{Token, TokenType};
use crate::laws::{
    expr_fits, expr_opts_fit, lemma_expr_opts_fit_push, lemma_pow_opts_fit_push,
    lemma_term_opts_fit_push, pow_fits, pow_opts_fit, primary_fits, term_fits, term_opts_fit,
};
use crate::tree::{
    AddOp, Expr, ExprOpt, MulOp, Parenthesese, Pow, PowOpts, Sign, Sym, Term, TermOpt,
    expr_opts_syms, expr_syms, pow_opts_syms, pow_syms, primary_syms, term_opts_syms, term_syms,
};

verus! {

/// How deeply parentheses may nest.
pub const MAX_DEPTH: usize = 256;

/// Why a token sequence is no expression.
#[derive(Debug, Clone, Copy, PartialEq, Eq, Structural)]
pub enum ParseErrorKind {
    /// A token that cannot stand where it stands.
    UnexpectedToken,
    /// A parenthesis that is opened and not closed.
    UnmatchedParenthesis,
    /// Tokens left after a complete expression.
    TrailingInput,
    /// Parentheses nested deeper than `MAX_DEPTH`.
    NestingTooDeep,
}

/// A parse failure, with the token where it was found and that token's offset.
#[derive(Debug, Clone, Copy, PartialEq, Eq, Structural)]
pub struct ParseError {
    pub kind: ParseErrorKind,
    pub token: TokenType,
    pub offset: usize,
}

/// A failure as the grammar states it: its kind and the index of the token.
pub type Failure = (ParseErrorKind, int);

pub open spec fn kinds(v: Seq<Token>) -> Seq<TokenType> {
    v.map_values(|t: Token| t.token_type)
}

pub open spec fn token_sym(t: Token) -> Sym {
    (
        t.token_type,
        match t.value {
            Some(v) => Some(v@),
            None => None,
        },
    )
}

pub open spec fn syms(v: Seq<Token>) -> Seq<Sym> {
    v.map_values(|t: Token| token_sym(t))
}

/// A token sequence as the tokenizer leaves it: it ends with end of input,
/// and exactly the number tokens carry a text.
pub open spec fn well_formed(v: Seq<Token>) -> bool {
    &&& v.len() > 0
    &&& v.last().token_type == TokenType::EOF
    &&& forall|i: int| 0 <= i < v.len() ==> (#[trigger] v[i].token_type == TokenType::Num) == (v[i].value is Some)
}

/// The kind at `i`; past either end, end of input.
pub open spec fn at(k: Seq<TokenType>, i: int) -> TokenType {
    if 0 <= i < k.len() {
        k[i]
    } else {
        TokenType::EOF
    }
}

/// Expression: an optional leading minus, a term, then `+`/`-` terms.
/// Returns the index just past the expression.
///
/// Each step that succeeds passes over at least one token; the tests
/// `i < m <= k.len()` below always hold and are there so that the recursion
/// visibly terminates.
pub open spec fn p_expr(k: Seq<TokenType>, i: int, d: int) -> Result<int, Failure>
    decreases k.len() - i, 3int,
{
    if !(0 <= i < k.len()) {
        Err((ParseErrorKind::UnexpectedToken, i))
    } else if at(k, i) == TokenType::Sub || at(k, i) == TokenType::Num || at(k, i)
        == TokenType::LeftParen {
        let j = if at(k, i) == TokenType::Sub {
            i + 1
        } else {
            i
        };
        match p_term(k, j, d) {
            Ok(m) => if i < m <= k.len() {
                p_expr_rest(k, m, d)
            } else {
                Ok(m)
            },
            Err(f) => Err(f),
        }
    } else {
        Err((ParseErrorKind::UnexpectedToken, i))
    }
}

/// The `+ term` / `- term` entries from `i` on.
pub open spec fn p_expr_rest(k: Seq<TokenType>, i: int, d: int) -> Result<int, Failure>
    decreases k.len() - i, 4int,
{
    if !(0 <= i < k.len()) {
        Ok(i)
    } else if at(k, i) == TokenType::Add || at(k, i) == TokenType::Sub {
        match p_term(k, i + 1, d) {
            Ok(m) => if i < m <= k.len() {
                p_expr_rest(k, m, d)
            } else {
                Ok(m)
            },
            Err(f) => Err(f),
        }
    } else {
        Ok(i)
    }
}

/// Term: a power, then `*`/`/` powers.
pub open spec fn p_term(k: Seq<TokenType>, i: int, d: int) -> Result<int, Failure>
    decreases k.len() - i, 2int,
{
    if !(0 <= i < k.len()) {
        Err((ParseErrorKind::UnexpectedToken, i))
    } else {
        match p_pow(k, i, d) {
            Ok(m) => if i < m <= k.len() {
                p_term_rest(k, m, d)
            } else {
                Ok(m)
            },
            Err(f) => Err(f),
        }
    }
}

pub open spec fn p_term_rest(k: Seq<TokenType>, i: int, d: int) -> Result<int, Failure>
    decreases k.len() - i, 4int,
{
    if !(0 <= i < k.len()) {
        Ok(i)
    } else if at(k, i) == TokenType::Mult || at(k, i) == TokenType::Div {
        match p_pow(k, i + 1, d) {
            Ok(m) => if i < m <= k.len() {
                p_term_rest(k, m, d)
            } else {
                Ok(m)
            },
            Err(f) => Err(f),
        }
    } else {
        Ok(i)
    }
}

/// Power: a primary, then `^` primaries.
pub open spec fn p_pow(k: Seq<TokenType>, i: int, d: int) -> Result<int, Failure>
    decreases k.len() - i, 1int,
{
    if !(0 <= i < k.len()) {
        Err((ParseErrorKind::UnexpectedToken, i))
    } else {
        match p_primary(k, i, d) {
            Ok(m) => if i < m <= k.len() {
                p_pow_rest(k, m, d)
            } else {
                Ok(m)
            },
            Err(f) => Err(f),
        }
    }
}

pub open spec fn p_pow_rest(k: Seq<TokenType>, i: int, d: int) -> Result<int, Failure>
    decreases k.len() - i, 4int,
{
    if !(0 <= i < k.len()) {
        Ok(i)
    } else if at(k, i) == TokenType::Pow {
        match p_primary(k, i + 1, d) {
            Ok(m) => if i < m <= k.len() {
                p_pow_rest(k, m, d)
            } else {
                Ok(m)
            },
            Err(f) => Err(f),
        }
    } else {
        Ok(i)
    }
}

/// Primary: a number, or an expression in parentheses one level deeper.
pub open spec fn p_primary(k: Seq<TokenType>, i: int, d: int) -> Result<int, Failure>
    decreases k.len() - i, 0int,
{
    if !(0 <= i < k.len()) {
        Err((ParseErrorKind::UnexpectedToken, i))
    } else if at(k, i) == TokenType::Num {
        Ok(i + 1)
    } else if at(k, i) == TokenType::LeftParen {
        if d >= MAX_DEPTH {
            Err((ParseErrorKind::NestingTooDeep, i))
        } else {
            match p_expr(k, i + 1, d + 1) {
                Ok(m) => if at(k, m) == TokenType::RightParen {
                    Ok(m + 1)
                } else {
                    Err((ParseErrorKind::UnmatchedParenthesis, m))
                },
                Err(f) => Err(f),
            }
        }
    } else {
        Err((ParseErrorKind::UnexpectedToken, i))
    }
}

/// A token sequence from `i` on: one expression, then end of input.
pub open spec fn p_parse(k: Seq<TokenType>, i: int) -> Result<int, Failure> {
    match p_expr(k, i, 0) {
        Ok(m) => if at(k, m) == TokenType::EOF {
            Ok(m)
        } else {
            Err((ParseErrorKind::TrailingInput, m))
        },
        Err(f) => Err(f),
    }
}

/// What a parse function returns: the tree with the index past it, or a failure.
pub open spec fn parsed<T>(r: Result<(T, usize), (ParseErrorKind, usize)>) -> Result<int, Failure> {
    match r {
        Ok((_, m)) => Ok(m as int),
        Err((kind, i)) => Err((kind, i as int)),
    }
}

fn copy_text(v: &Vec<char>) -> (r: Vec<char>)
    ensures
        r@ == v@,
{
    let mut r: Vec<char> = Vec::new();
    let mut i: usize = 0;
    while i < v.len()
        invariant
            i <= v@.len(),
            r@ == v@.subrange(0, i as int),
        decreases v@.len() - i,
    {
        r.push(v[i]);
        i = i + 1;
    }
    assert(r@ =~= v@);
    r
}

proof fn lemma_expr_opts_push(s: Seq<ExprOpt>, x: ExprOpt, n: int)
    requires
        0 <= n <= s.len(),
    ensures
        expr_opts_syms(s.push(x), n) == expr_opts_syms(s, n) + seq![crate::tree::add_sym(x.operation)] + term_syms(x.term),
    decreases s.len() - n,
{
    if n < s.len() {
        lemma_expr_opts_push(s, x, n + 1);
        assert(s.push(x)[n] == s[n]);
    } else {
        assert(expr_opts_syms(s.push(x), n + 1) =~= Seq::empty());
    }
}

proof fn lemma_term_opts_push(s: Seq<TermOpt>, x: TermOpt, n: int)
    requires
        0 <= n <= s.len(),
    ensures
        term_opts_syms(s.push(x), n) == term_opts_syms(s, n) + seq![crate::tree::mul_sym(x.operation)] + pow_syms(x.pow),
    decreases s.len() - n,
{
    if n < s.len() {
        lemma_term_opts_push(s, x, n + 1);
        assert(s.push(x)[n] == s[n]);
    } else {
        assert(term_opts_syms(s.push(x), n + 1) =~= Seq::empty());
    }
}

proof fn lemma_pow_opts_push(s: Seq<PowOpts>, x: PowOpts, n: int)
    requires
        0 <= n <= s.len(),
    ensures
        pow_opts_syms(s.push(x), n) == pow_opts_syms(s, n) + seq![crate::tree::sym(TokenType::Pow)] + primary_syms(x.parenthesese),
    decreases s.len() - n,
{
    if n < s.len() {
        lemma_pow_opts_push(s, x, n + 1);
        assert(s.push(x)[n] == s[n]);
    } else {
        assert(pow_opts_syms(s.push(x), n + 1) =~= Seq::empty());
    }
}

/// An operator token is never the last one: that one is end of input.
proof fn lemma_not_last(toks: Seq<Token>, i: int)
    requires
        well_formed(toks),
        0 <= i < toks.len(),
        toks[i].token_type != TokenType::EOF,
    ensures
        i + 1 < toks.len(),
        kinds(toks)[i] == toks[i].token_type,
        syms(toks)[i] == token_sym(toks[i]),
{
}

#[verifier::rlimit(40)]
fn parse_expr(toks: &Vec<Token>, pos: usize, depth: usize) -> (r: Result<(Expr, usize), (ParseErrorKind, usize)>)
    requires
        well_formed(toks@),
        pos < toks@.len(),
        depth <= MAX_DEPTH,
    ensures
        parsed(r) == p_expr(kinds(toks@), pos as int, depth as int),
        match r {
            Ok((e, m)) => pos < m < toks@.len() && expr_syms(e) == syms(toks@).subrange(pos as int, m as int)
                && expr_fits(e, depth as int),
            Err((_, i)) => i < toks@.len(),
        },
    decreases toks@.len() - pos, 3int,
{
    let ghost k = kinds(toks@);
    let ghost ss = syms(toks@);
    let n = toks.len();
    let first = toks[pos].token_type;
    proof {
        assert(k[pos as int] == first);
    }
    let (operation, start) = if first == TokenType::Sub {
        proof {
            lemma_not_last(toks@, pos as int);
        }
        (Sign::Negative, pos + 1)
    } else if first == TokenType::Num || first == TokenType::LeftParen {
        (Sign::Positive, pos)
    } else {
        return Err((ParseErrorKind::UnexpectedToken, pos));
    };
    let (term, m) = match parse_term(toks, start, depth) {
        Ok(x) => x,
        Err(f) => {
            return Err(f);
        },
    };
    let mut expr_opts: Vec<ExprOpt> = Vec::new();
    let mut i = m;
    proof {
        if first == TokenType::Sub {
            lemma_not_last(toks@, pos as int);
            assert(crate::tree::sign_syms(operation) =~= ss.subrange(pos as int, start as int));
        } else {
            assert(crate::tree::sign_syms(operation) =~= ss.subrange(pos as int, start as int));
        }
        assert(expr_opts_syms(expr_opts@, 0) =~= ss.subrange(m as int, m as int));
    }
    while toks[i].token_type == TokenType::Add || toks[i].token_type == TokenType::Sub
        invariant
            well_formed(toks@),
            n == toks@.len(),
            k == kinds(toks@),
            ss == syms(toks@),
            pos <= start < m <= i < toks@.len(),
            depth <= MAX_DEPTH,
            p_expr(k, pos as int, depth as int) == p_expr_rest(k, i as int, depth as int),
            expr_opts_syms(expr_opts@, 0) == ss.subrange(m as int, i as int),
            expr_opts_fit(expr_opts@, 0, depth as int),
        decreases toks@.len() - i,
    {
        let kind = toks[i].token_type;
        proof {
            lemma_not_last(toks@, i as int);
        }
        let operation = if kind == TokenType::Add {
            AddOp::Add
        } else {
            AddOp::Sub
        };
        let (term, j) = match parse_term(toks, i + 1, depth) {
            Ok(x) => x,
            Err(f) => {
                return Err(f);
            },
        };
        let opt = ExprOpt { operation, term };
        let ghost prev = expr_opts@;
        let ghost g = opt;
        expr_opts.push(opt);
        proof {
            lemma_expr_opts_push(prev, g, 0);
            lemma_expr_opts_fit_push(prev, g, 0, depth as int);
            assert(ss.subrange(m as int, i as int) + seq![ss[i as int]] + ss.subrange(i + 1, j as int)
                =~= ss.subrange(m as int, j as int));
        }
        i = j;
    }
    proof {
        assert(ss.subrange(pos as int, start as int) + ss.subrange(start as int, m as int)
            + ss.subrange(m as int, i as int) =~= ss.subrange(pos as int, i as int));
    }
    Ok((Expr { operation, term, expr_opts }, i))
}

fn parse_term(toks: &Vec<Token>, pos: usize, depth: usize) -> (r: Result<(Term, usize), (ParseErrorKind, usize)>)
    requires
        well_formed(toks@),
        pos < toks@.len(),
        depth <= MAX_DEPTH,
    ensures
        parsed(r) == p_term(kinds(toks@), pos as int, depth as int),
        match r {
            Ok((t, m)) => pos < m < toks@.len() && term_syms(t) == syms(toks@).subrange(pos as int, m as int)
                && term_fits(t, depth as int),
            Err((_, i)) => i < toks@.len(),
        },
    decreases toks@.len() - pos, 2int,
{
    let ghost k = kinds(toks@);
    let ghost ss = syms(toks@);
    let n = toks.len();
    let (pow, m) = match parse_pow(toks, pos, depth) {
        Ok(x) => x,
        Err(f) => {
            return Err(f);
        },
    };
    let mut term_opts: Vec<TermOpt> = Vec::new();
    let mut i = m;
    proof {
        assert(term_opts_syms(term_opts@, 0) =~= ss.subrange(m as int, m as int));
    }
    while toks[i].token_type == TokenType::Mult || toks[i].token_type == TokenType::Div
        invariant
            well_formed(toks@),
            n == toks@.len(),
            k == kinds(toks@),
            ss == syms(toks@),
            pos < m <= i < toks@.len(),
            depth <= MAX_DEPTH,
            p_term(k, pos as int, depth as int) == p_term_rest(k, i as int, depth as int),
            term_opts_syms(term_opts@, 0) == ss.subrange(m as int, i as int),
            term_opts_fit(term_opts@, 0, depth as int),
        decreases toks@.len() - i,
    {
        let kind = toks[i].token_type;
        proof {
            lemma_not_last(toks@, i as int);
        }
        let operation = if kind == TokenType::Mult {
            MulOp::Mul
        } else {
            MulOp::Div
        };
        let (pow, j) = match parse_pow(toks, i + 1, depth) {
            Ok(x) => x,
            Err(f) => {
                return Err(f);
            },
        };
        let opt = TermOpt { operation, pow };
        let ghost prev = term_opts@;
        let ghost g = opt;
        term_opts.push(opt);
        proof {
            lemma_term_opts_push(prev, g, 0);
            lemma_term_opts_fit_push(prev, g, 0, depth as int);
            assert(ss.subrange(m as int, i as int) + seq![ss[i as int]] + ss.subrange(i + 1, j as int)
                =~= ss.subrange(m as int, j as int));
        }
        i = j;
    }
    proof {
        assert(ss.subrange(pos as int, m as int) + ss.subrange(m as int, i as int) =~= ss.subrange(
            pos as int,
            i as int,
        ));
    }
    Ok((Term { pow, term_opts }, i))
}

fn parse_pow(toks: &Vec<Token>, pos: usize, depth: usize) -> (r: Result<(Pow, usize), (ParseErrorKind, usize)>)
    requires
        well_formed(toks@),
        pos < toks@.len(),
        depth <= MAX_DEPTH,
    ensures
        parsed(r) == p_pow(kinds(toks@), pos as int, depth as int),
        match r {
            Ok((p, m)) => pos < m < toks@.len() && pow_syms(p) == syms(toks@).subrange(pos as int, m as int)
                && pow_fits(p, depth as int),
            Err((_, i)) => i < toks@.len(),
        },
    decreases toks@.len() - pos, 1int,
{
    let ghost k = kinds(toks@);
    let ghost ss = syms(toks@);
    let n = toks.len();
    let (parentheses, m) = match parse_primary(toks, pos, depth) {
        Ok(x) => x,
        Err(f) => {
            return Err(f);
        },
    };
    let mut pow_opts: Vec<PowOpts> = Vec::new();
    let mut i = m;
    proof {
        assert(pow_opts_syms(pow_opts@, 0) =~= ss.subrange(m as int, m as int));
    }
    while toks[i].token_type == TokenType::Pow
        invariant
            well_formed(toks@),
            n == toks@.len(),
            k == kinds(toks@),
            ss == syms(toks@),
            pos < m <= i < toks@.len(),
            depth <= MAX_DEPTH,
            p_pow(k, pos as int, depth as int) == p_pow_rest(k, i as int, depth as int),
            pow_opts_syms(pow_opts@, 0) == ss.subrange(m as int, i as int),
            pow_opts_fit(pow_opts@, 0, depth as int),
        decreases toks@.len() - i,
    {
        proof {
            lemma_not_last(toks@, i as int);
        }
        let (parenthesese, j) = match parse_primary(toks, i + 1, depth) {
            Ok(x) => x,
            Err(f) => {
                return Err(f);
            },
        };
        let opt = PowOpts { parenthesese };
        let ghost prev = pow_opts@;
        let ghost g = opt;
        pow_opts.push(opt);
        proof {
            lemma_pow_opts_push(prev, g, 0);
            lemma_pow_opts_fit_push(prev, g, 0, depth as int);
            assert(ss.subrange(m as int, i as int) + seq![ss[i as int]] + ss.subrange(i + 1, j as int)
                =~= ss.subrange(m as int, j as int));
        }
        i = j;
    }
    proof {
        assert(ss.subrange(pos as int, m as int) + ss.subrange(m as int, i as int) =~= ss.subrange(
            pos as int,
            i as int,
        ));
    }
    Ok((Pow { parentheses, pow_opts }, i))
}

fn parse_primary(toks: &Vec<Token>, pos: usize, depth: usize) -> (r: Result<
    (Parenthesese, usize),
    (ParseErrorKind, usize),
>)
    requires
        well_formed(toks@),
        pos < toks@.len(),
        depth <= MAX_DEPTH,
    ensures
        parsed(r) == p_primary(kinds(toks@), pos as int, depth as int),
        match r {
            Ok((p, m)) => pos < m < toks@.len() && primary_syms(p) == syms(toks@).subrange(
                pos as int,
                m as int,
            ) && primary_fits(p, depth as int),
            Err((_, i)) => i < toks@.len(),
        },
    decreases toks@.len() - pos, 0int,
{
    let ghost k = kinds(toks@);
    let ghost ss = syms(toks@);
    let n = toks.len();
    let kind = toks[pos].token_type;
    proof {
        assert(k[pos as int] == kind);
    }
    if kind == TokenType::Num {
        proof {
            lemma_not_last(toks@, pos as int);
        }
        let text = match &toks[pos].value {
            Some(v) => copy_text(v),
            None => Vec::new(),
        };
        proof {
            assert(primary_syms(Parenthesese::Num(text)) =~= ss.subrange(pos as int, pos + 1));
        }
        Ok((Parenthesese::Num(text), pos + 1))
    } else if kind == TokenType::LeftParen {
        proof {
            lemma_not_last(toks@, pos as int);
        }
        if depth >= MAX_DEPTH {
            return Err((ParseErrorKind::NestingTooDeep, pos));
        }
        let (e, m) = match parse_expr(toks, pos + 1, depth + 1) {
            Ok(x) => x,
            Err(f) => {
                return Err(f);
            },
        };
        if toks[m].token_type == TokenType::RightParen {
            proof {
                lemma_not_last(toks@, m as int);
                assert(seq![ss[pos as int]] + ss.subrange(pos + 1, m as int) + seq![ss[m as int]]
                    =~= ss.subrange(pos as int, m + 1));
            }
            Ok((Parenthesese::Expr(Box::new(e)), m + 1))
        } else {
            Err((ParseErrorKind::UnmatchedParenthesis, m))
        }
    } else {
        Err((ParseErrorKind::UnexpectedToken, pos))
    }
}

/// The error reported for a failure: its kind, with the kind and offset of
/// the token where it was found.
pub open spec fn error_of(v: Seq<Token>, f: Failure) -> ParseError {
    ParseError { kind: f.0, token: v[f.1].token_type, offset: v[f.1].start_pos }
}

/// Parses a token sequence into an expression tree.
pub struct Parser {
    pub tokens: Vec<Token>,
    pub index: usize,
}

impl Parser {
    pub fn new(tokens: Vec<Token>) -> (r: Self)
        ensures
            r.tokens@ == tokens@,
            r.index == 0,
    {
        Self { tokens, index: 0 }
    }

    /// One expression from the current token on, which must then be followed
    /// by end of input. On success the parser stands at that end of input and
    /// the tree is written with exactly the tokens it passed over.
    pub fn parse(&mut self) -> (r: Result<Expr, ParseError>)
        requires
            well_formed(old(self).tokens@),
            old(self).index < old(self).tokens@.len(),
        ensures
            final(self).tokens@ == old(self).tokens@,
            ({
                let toks = old(self).tokens@;
                let outcome = p_parse(kinds(toks), old(self).index as int);
                match r {
                    Ok(e) => outcome == Ok::<int, Failure>(final(self).index as int)
                        && final(self).index < toks.len() && expr_fits(e, 0) && expr_syms(e)
                        == syms(toks).subrange(old(self).index as int, final(self).index as int),
                    Err(err) => outcome is Err && 0 <= outcome->Err_0.1 < toks.len() && err
                        == error_of(toks, outcome->Err_0),
                }
            }),
    {
        match parse_expr(&self.tokens, self.index, 0) {
            Ok((e, m)) => {
                if self.tokens[m].token_type == TokenType::EOF {
                    self.index = m;
                    Ok(e)
                } else {
                    Err(
                        ParseError {
                            kind: ParseErrorKind::TrailingInput,
                            token: self.tokens[m].token_type,
                            offset: self.tokens[m].start_pos,
                        },
                    )
                }
            },
            Err((kind, i)) => Err(
                ParseError { kind, token: self.tokens[i].token_type, offset: self.tokens[i].start_pos },
            ),
        }
    }
}

} // verus!
