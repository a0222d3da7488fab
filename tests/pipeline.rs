use calculator::lexer::{tokenize, LexError, Lexer, Token, TokenType};
use calculator::parser::{ParseError, ParseErrorKind, Parser, MAX_DEPTH};
use calculator::pipeline::{parse_text, CalcError};
use calculator::tree::{AddOp, Expr, MulOp, Parenthesese, Pow, Sign, Term};

fn number(p: &Parenthesese) -> f64 {
    match p {
        Parenthesese::Num(t) => t.iter().collect::<String>().parse::<f64>().unwrap(),
        Parenthesese::Expr(e) => value(e),
    }
}

fn pow_value(p: &Pow) -> f64 {
    let base = number(&p.parentheses);
    if p.pow_opts.is_empty() {
        return base;
    }
    let mut e = number(&p.pow_opts[0].parenthesese);
    for o in &p.pow_opts[1..] {
        e = e.powf(number(&o.parenthesese));
    }
    base.powf(e)
}

fn term_value(t: &Term) -> f64 {
    let mut v = pow_value(&t.pow);
    for o in &t.term_opts {
        match o.operation {
            MulOp::Mul => v *= pow_value(&o.pow),
            MulOp::Div => v /= pow_value(&o.pow),
        }
    }
    v
}

fn value(e: &Expr) -> f64 {
    let mut v = term_value(&e.term);
    if e.operation == Sign::Negative {
        v = -v;
    }
    for o in &e.expr_opts {
        match o.operation {
            AddOp::Add => v += term_value(&o.term),
            AddOp::Sub => v -= term_value(&o.term),
        }
    }
    v
}

fn eval(text: &str) -> f64 {
    value(&parse_text(text).unwrap())
}

fn kinds(text: &str) -> Vec<TokenType> {
    tokenize(text).unwrap().iter().map(|t| t.token_type).collect()
}

fn parse_error(text: &str) -> ParseError {
    match parse_text(text) {
        Err(CalcError::Parse(e)) => e,
        other => panic!("expected a parse error, got {:?}", other),
    }
}

#[test]
fn sum_and_difference_fold_left_to_right() {
    assert_eq!(eval("1-2+3"), 2.0);
    assert_eq!(eval("10-4-3"), 3.0);
    let e = parse_text("1-2+3").unwrap();
    assert_eq!(e.operation, Sign::Positive);
    assert_eq!(e.expr_opts.len(), 2);
    assert_eq!(e.expr_opts[0].operation, AddOp::Sub);
    assert_eq!(e.expr_opts[1].operation, AddOp::Add);
}

#[test]
fn multiplication_binds_tighter_than_addition() {
    assert_eq!(eval("2+3*4"), 14.0);
    let e = parse_text("2+3*4").unwrap();
    assert!(e.term.term_opts.is_empty());
    assert_eq!(e.expr_opts.len(), 1);
    assert_eq!(e.expr_opts[0].term.term_opts.len(), 1);
    assert_eq!(e.expr_opts[0].term.term_opts[0].operation, MulOp::Mul);
}

#[test]
fn parentheses_group_first() {
    assert_eq!(eval("(2+3)*4"), 20.0);
    let e = parse_text("(2+3)*4").unwrap();
    assert!(e.expr_opts.is_empty());
    assert!(matches!(e.term.pow.parentheses, Parenthesese::Expr(_)));
}

#[test]
fn division_is_left_to_right() {
    assert_eq!(eval("8/4/2"), 1.0);
    let e = parse_text("8/4/2").unwrap();
    assert_eq!(e.term.term_opts.len(), 2);
}

#[test]
fn division_by_zero_is_infinite() {
    assert_eq!(eval("5/0"), f64::INFINITY);
}

#[test]
fn exponent_chain_folds_among_exponents() {
    assert_eq!(eval("2^3^2"), 512.0);
    assert_eq!(eval("2^3"), 8.0);
    assert_eq!(eval("5"), 5.0);
    let e = parse_text("2^3^2").unwrap();
    assert_eq!(e.term.pow.pow_opts.len(), 2);
    let e = parse_text("5").unwrap();
    assert!(e.term.pow.pow_opts.is_empty());
}

#[test]
fn exponent_chain_with_parenthesized_base() {
    assert_eq!(eval("(2)^3^2"), 512.0);
    assert_eq!(eval("(2^3)^2"), 64.0);
}

#[test]
fn leading_minus_negates_first_term_only() {
    assert_eq!(eval("-2+3"), 1.0);
    let e = parse_text("-2+3").unwrap();
    assert_eq!(e.operation, Sign::Negative);
    assert_eq!(eval("-2*3+10"), 4.0);
}

#[test]
fn unclosed_parenthesis_is_unmatched() {
    let e = parse_error("(1+2");
    assert_eq!(e.kind, ParseErrorKind::UnmatchedParenthesis);
    assert_eq!(e.token, TokenType::EOF);
    assert_eq!(e.offset, 4);
}

#[test]
fn extra_closing_parenthesis_is_trailing_input() {
    let e = parse_error("1+2)");
    assert_eq!(e.kind, ParseErrorKind::TrailingInput);
    assert_eq!(e.token, TokenType::RightParen);
    assert_eq!(e.offset, 3);
}

#[test]
fn unknown_character_is_reported_with_offset() {
    assert_eq!(parse_text("2&3"), Err(CalcError::Lex(LexError::UnknownCharacter('&', 1))));
    assert_eq!(tokenize("2&3"), Err(LexError::UnknownCharacter('&', 1)));
}

#[test]
fn offsets_count_from_trimmed_text() {
    assert_eq!(tokenize("  2 & 3 "), Err(LexError::UnknownCharacter('&', 2)));
    assert_eq!(tokenize("\t\n 7"), Ok(vec![
        Token::new(TokenType::Num, Some(vec!['7']), 0),
        Token::new(TokenType::EOF, None, 1),
    ]));
}

#[test]
fn malformed_numbers_are_rejected() {
    assert_eq!(tokenize("1.2.3"), Err(LexError::MalformedNumber(0)));
    assert_eq!(tokenize("4+."), Err(LexError::MalformedNumber(2)));
    assert_eq!(tokenize("4+.."), Err(LexError::MalformedNumber(2)));
}

#[test]
fn decimal_numbers_are_read_whole() {
    assert_eq!(tokenize(".5"), Ok(vec![
        Token::new(TokenType::Num, Some(vec!['.', '5']), 0),
        Token::new(TokenType::EOF, None, 2),
    ]));
    assert_eq!(eval("1.5*2."), 3.0);
    assert_eq!(eval("0.25 + .75"), 1.0);
}

#[test]
fn every_symbol_has_its_token() {
    assert_eq!(kinds("1 + 2 - 3 * 4 / 5 ^ (6)"), vec![
        TokenType::Num,
        TokenType::Add,
        TokenType::Num,
        TokenType::Sub,
        TokenType::Num,
        TokenType::Mult,
        TokenType::Num,
        TokenType::Div,
        TokenType::Num,
        TokenType::Pow,
        TokenType::LeftParen,
        TokenType::Num,
        TokenType::RightParen,
        TokenType::EOF,
    ]);
}

#[test]
fn empty_text_is_end_of_input_only() {
    assert_eq!(kinds("   "), vec![TokenType::EOF]);
    let e = parse_error("");
    assert_eq!(e.kind, ParseErrorKind::UnexpectedToken);
    assert_eq!(e.token, TokenType::EOF);
}

#[test]
fn misplaced_tokens_are_unexpected() {
    let e = parse_error("*2");
    assert_eq!((e.kind, e.token, e.offset), (ParseErrorKind::UnexpectedToken, TokenType::Mult, 0));
    let e = parse_error("2+");
    assert_eq!((e.kind, e.token, e.offset), (ParseErrorKind::UnexpectedToken, TokenType::EOF, 2));
    let e = parse_error("2*-3");
    assert_eq!((e.kind, e.token, e.offset), (ParseErrorKind::UnexpectedToken, TokenType::Sub, 2));
    let e = parse_error("()");
    assert_eq!((e.kind, e.token, e.offset), (ParseErrorKind::UnexpectedToken, TokenType::RightParen, 1));
}

#[test]
fn nesting_is_limited() {
    let deep = "(".repeat(MAX_DEPTH) + "1" + &")".repeat(MAX_DEPTH);
    assert_eq!(eval(&deep), 1.0);
    let too_deep = "(".repeat(MAX_DEPTH + 1) + "1" + &")".repeat(MAX_DEPTH + 1);
    let e = parse_error(&too_deep);
    assert_eq!((e.kind, e.token, e.offset), (ParseErrorKind::NestingTooDeep, TokenType::LeftParen, MAX_DEPTH));
}

#[test]
fn lexer_and_parser_by_hand() {
    let mut lexer = Lexer::new(String::from(" 3*(1+1) "));
    assert_eq!(lexer.input, vec!['3', '*', '(', '1', '+', '1', ')']);
    let tokens = lexer.lex().unwrap();
    assert_eq!(tokens.len(), 8);
    let mut parser = Parser::new(tokens);
    let e = parser.parse().unwrap();
    assert_eq!(parser.index, 7);
    assert_eq!(value(&e), 6.0);
}

#[test]
fn rendering_separates_tokens_by_spaces() {
    let e = parse_text("-(1.5+2)*3^2/4").unwrap();
    let text: String = calculator::render::render(&e).into_iter().collect();
    assert_eq!(text, "- ( 1.5 + 2 ) * 3 ^ 2 / 4");
}

#[test]
fn rendering_parses_back_to_the_same_tree() {
    for text in ["1-2+3", "2+3*4", "(2+3)*4", "8/4/2", "2^3^2", "-2+3", "((7))", ".5*2."] {
        let e = parse_text(text).unwrap();
        let rendered: String = calculator::render::render(&e).into_iter().collect();
        let again = parse_text(&rendered).unwrap();
        assert_eq!(again, e);
        assert_eq!(value(&again), value(&e));
    }
}

#[test]
fn unicode_white_space_is_skipped() {
    assert_eq!(kinds("\u{3000}1\u{a0}+\u{2003}2\u{85}"), vec![
        TokenType::Num,
        TokenType::Add,
        TokenType::Num,
        TokenType::EOF,
    ]);
    assert_eq!(tokenize("\u{2009}1$"), Err(LexError::UnknownCharacter('$', 1)));
}

#[test]
fn sums_have_bare_number_terms() {
    let e = parse_text("-1+2-3+4-5").unwrap();
    assert_eq!(value(&e), -3.0);
    for t in std::iter::once(&e.term).chain(e.expr_opts.iter().map(|o| &o.term)) {
        assert!(t.term_opts.is_empty());
        assert!(t.pow.pow_opts.is_empty());
        assert!(matches!(t.pow.parentheses, Parenthesese::Num(_)));
    }
}
