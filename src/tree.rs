use vstd::prelude::*;

use crate::lexer::TokenType;

verus! {

/// The sign in front of an expression's first term.
#[derive(Debug, Clone, Copy, PartialEq, Eq, Structural)]
pub enum Sign {
    Positive,
    Negative,
}

/// An additive operator between terms.
#[derive(Debug, Clone, Copy, PartialEq, Eq, Structural)]
pub enum AddOp {
    Add,
    Sub,
}

/// A multiplicative operator between powers.
#[derive(Debug, Clone, Copy, PartialEq, Eq, Structural)]
pub enum MulOp {
    Mul,
    Div,
}

/// A sum: a signed first term followed by further terms, each added or
/// subtracted in order.
#[derive(Debug, PartialEq)]
pub struct Expr {
    pub operation: Sign,
    pub term: Term,
    pub expr_opts: Vec<ExprOpt>,
}

/// One `+ term` or `- term` after an expression's first term.
#[derive(Debug, PartialEq)]
pub struct ExprOpt {
    pub operation: AddOp,
    pub term: Term,
}

/// A product: a first power followed by further powers, each multiplied or
/// divided in order.
#[derive(Debug, PartialEq)]
pub struct Term {
    pub pow: Pow,
    pub term_opts: Vec<TermOpt>,
}

/// One `* power` or `/ power` after a term's first power.
#[derive(Debug, PartialEq)]
pub struct TermOpt {
    pub operation: MulOp,
    pub pow: Pow,
}

/// A base with a chain of exponents; an empty chain leaves the base as it is.
#[derive(Debug, PartialEq)]
pub struct Pow {
    pub parentheses: Parenthesese,
    pub pow_opts: Vec<PowOpts>,
}

/// One `^ primary` of an exponent chain.
#[derive(Debug, PartialEq)]
pub struct PowOpts {
    pub parenthesese: Parenthesese,
}

/// A primary: a number, held as its digit text, or a parenthesized
/// expression.
#[derive(Debug, PartialEq)]
pub enum Parenthesese {
    Num(Vec<char>),
    Expr(Box<Expr>),
}

impl Expr {
    pub fn new(operation: Sign, term: Term, expr_opts: Vec<ExprOpt>) -> (r: Self)
        ensures
            r.operation == operation,
            r.term == term,
            r.expr_opts@ == expr_opts@,
    {
        Self { operation, term, expr_opts }
    }
}

impl ExprOpt {
    pub fn new(operation: AddOp, term: Term) -> (r: Self)
        ensures
            r.operation == operation,
            r.term == term,
    {
        Self { operation, term }
    }
}

impl Term {
    pub fn new(pow: Pow, term_opts: Vec<TermOpt>) -> (r: Self)
        ensures
            r.pow == pow,
            r.term_opts@ == term_opts@,
    {
        Self { pow, term_opts }
    }
}

impl TermOpt {
    pub fn new(operation: MulOp, pow: Pow) -> (r: Self)
        ensures
            r.operation == operation,
            r.pow == pow,
    {
        Self { operation, pow }
    }
}

impl Pow {
    pub fn new(parentheses: Parenthesese, pow_opts: Vec<PowOpts>) -> (r: Self)
        ensures
            r.parentheses == parentheses,
            r.pow_opts@ == pow_opts@,
    {
        Self { parentheses, pow_opts }
    }
}

/// A token as the grammar sees it: its kind and, for a number, its text.
pub type Sym = (TokenType, Option<Seq<char>>);

pub open spec fn sym(k: TokenType) -> Sym {
    (k, None)
}

pub open spec fn sign_syms(s: Sign) -> Seq<Sym> {
    match s {
        Sign::Positive => Seq::empty(),
        Sign::Negative => seq![sym(TokenType::Sub)],
    }
}

pub open spec fn add_sym(op: AddOp) -> Sym {
    match op {
        AddOp::Add => sym(TokenType::Add),
        AddOp::Sub => sym(TokenType::Sub),
    }
}

pub open spec fn mul_sym(op: MulOp) -> Sym {
    match op {
        MulOp::Mul => sym(TokenType::Mult),
        MulOp::Div => sym(TokenType::Div),
    }
}

/// The tokens that an expression is written with, without end of input.
pub open spec fn expr_syms(e: Expr) -> Seq<Sym>
    decreases e, 0int,
{
    sign_syms(e.operation) + term_syms(e.term) + expr_opts_syms(e.expr_opts@, 0)
}

/// The tokens of the entries of `s` from the `n`-th on.
pub open spec fn expr_opts_syms(s: Seq<ExprOpt>, n: int) -> Seq<Sym>
    decreases s, s.len() - n,
{
    if n < 0 || n >= s.len() {
        Seq::empty()
    } else {
        seq![add_sym(s[n].operation)] + term_syms(s[n].term) + expr_opts_syms(s, n + 1)
    }
}

pub open spec fn term_syms(t: Term) -> Seq<Sym>
    decreases t, 0int,
{
    pow_syms(t.pow) + term_opts_syms(t.term_opts@, 0)
}

pub open spec fn term_opts_syms(s: Seq<TermOpt>, n: int) -> Seq<Sym>
    decreases s, s.len() - n,
{
    if n < 0 || n >= s.len() {
        Seq::empty()
    } else {
        seq![mul_sym(s[n].operation)] + pow_syms(s[n].pow) + term_opts_syms(s, n + 1)
    }
}

pub open spec fn pow_syms(p: Pow) -> Seq<Sym>
    decreases p, 0int,
{
    primary_syms(p.parentheses) + pow_opts_syms(p.pow_opts@, 0)
}

pub open spec fn pow_opts_syms(s: Seq<PowOpts>, n: int) -> Seq<Sym>
    decreases s, s.len() - n,
{
    if n < 0 || n >= s.len() {
        Seq::empty()
    } else {
        seq![sym(TokenType::Pow)] + primary_syms(s[n].parenthesese) + pow_opts_syms(s, n + 1)
    }
}

pub open spec fn primary_syms(p: Parenthesese) -> Seq<Sym>
    decreases p, 0int,
{
    match p {
        Parenthesese::Num(t) => seq![(TokenType::Num, Some(t@))],
        Parenthesese::Expr(b) => seq![sym(TokenType::LeftParen)] + expr_syms(*b) + seq![
            sym(TokenType::RightParen),
        ],
    }
}

} // verus!
