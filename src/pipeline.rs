use vstd::prelude::*;

use crate::lexer::{Lexeme, LexError, TokenType, lex_from, lexemes, tokenize, tokenize_spec};
use crate::parser::{ParseError, Parser, kinds, p_parse, syms};
use crate::laws::{expr_fits, number_text, numbers_valid};
use crate::tree::{Expr, Sym, expr_syms};

verus! {

/// Why a text is no expression.
#[derive(Debug, Clone, Copy, PartialEq, Eq, Structural)]
pub enum CalcError {
    Lex(LexError),
    Parse(ParseError),
}

pub open spec fn lexeme_kinds(ls: Seq<Lexeme>) -> Seq<TokenType> {
    ls.map_values(|l: Lexeme| l.0)
}

pub open spec fn lexeme_syms(ls: Seq<Lexeme>) -> Seq<Sym> {
    ls.map_values(|l: Lexeme| (l.0, l.1))
}

/// End of input closes the sequence and stands nowhere else, and exactly the
/// numbers carry a text.
pub open spec fn lexemes_well_formed(ls: Seq<Lexeme>) -> bool {
    &&& ls.len() > 0
    &&& ls.last().0 == TokenType::EOF
    &&& forall|i: int| 0 <= i < ls.len() - 1 ==> (#[trigger] ls[i]).0 != TokenType::EOF
    &&& forall|i: int| 0 <= i < ls.len() ==> ((#[trigger] ls[i]).0 == TokenType::Num) == (ls[i].1 is Some)
    &&& forall|i: int| 0 <= i < ls.len() && (#[trigger] ls[i]).1 is Some ==> number_text(ls[i].1->Some_0)
}

proof fn lemma_run_chars(s: Seq<char>, i: int)
    requires
        0 <= i,
    ensures
        forall|j: int| i <= j < crate::lexer::run_end(s, i) ==> crate::lexer::is_number_char(#[trigger] s[j]),
    decreases s.len() - i,
{
    if 0 <= i < s.len() && crate::lexer::is_number_char(s[i]) {
        lemma_run_chars(s, i + 1);
    }
}

proof fn lemma_lex_well_formed(s: Seq<char>, i: int)
    requires
        lex_from(s, i) is Ok,
    ensures
        lexemes_well_formed(lex_from(s, i)->Ok_0),
    decreases s.len() - i,
{
    if i < 0 || i >= s.len() {
    } else if crate::lexer::is_white(s[i]) {
        lemma_lex_well_formed(s, i + 1);
    } else if crate::lexer::is_number_char(s[i]) {
        let e = crate::lexer::run_end(s, i);
        lemma_lex_well_formed(s, e);
        lemma_run_chars(s, i);
        let text = s.subrange(i, e);
        assert forall|j: int| 0 <= j < text.len() implies crate::lexer::is_number_char(#[trigger] text[j]) by {
            assert(text[j] == s[i + j]);
        }
        let rest = lex_from(s, e)->Ok_0;
        let all = lex_from(s, i)->Ok_0;
        assert(all =~= seq![(TokenType::Num, Some(s.subrange(i, e)), i)] + rest);
        assert forall|j: int| 0 <= j < all.len() implies ((#[trigger] all[j]).0 == TokenType::Num)
            == (all[j].1 is Some) by {
            if j > 0 {
                assert(all[j] == rest[j - 1]);
            }
        }
        assert forall|j: int| 0 <= j < all.len() - 1 implies (#[trigger] all[j]).0 != TokenType::EOF by {
            if j > 0 {
                assert(all[j] == rest[j - 1]);
            }
        }
        assert forall|j: int| 0 <= j < all.len() && (#[trigger] all[j]).1 is Some implies number_text(
            all[j].1->Some_0,
        ) by {
            if j > 0 {
                assert(all[j] == rest[j - 1]);
            }
        }
    } else {
        let k = crate::lexer::symbol_kind(s[i])->Some_0;
        lemma_lex_well_formed(s, i + 1);
        let rest = lex_from(s, i + 1)->Ok_0;
        let all = lex_from(s, i)->Ok_0;
        assert(all =~= seq![(k, None, i)] + rest);
        assert forall|j: int| 0 <= j < all.len() implies ((#[trigger] all[j]).0 == TokenType::Num)
            == (all[j].1 is Some) by {
            if j > 0 {
                assert(all[j] == rest[j - 1]);
            }
        }
        assert forall|j: int| 0 <= j < all.len() - 1 implies (#[trigger] all[j]).0 != TokenType::EOF by {
            if j > 0 {
                assert(all[j] == rest[j - 1]);
            }
        }
        assert forall|j: int| 0 <= j < all.len() && (#[trigger] all[j]).1 is Some implies number_text(
            all[j].1->Some_0,
        ) by {
            if j > 0 {
                assert(all[j] == rest[j - 1]);
            }
        }
    }
}

/// Tokenizes and parses `text`. A tokenizer error comes first; otherwise the
/// outcome is the grammar's on the tokens, and a tree is written with exactly
/// the tokens before end of input.
pub fn parse_text(text: &str) -> (r: Result<Expr, CalcError>)
    ensures
        match tokenize_spec(text@) {
            Err(le) => r == Err::<Expr, CalcError>(CalcError::Lex(le)),
            Ok(ls) => match p_parse(lexeme_kinds(ls), 0) {
                Ok(m) => r is Ok && m == ls.len() - 1 && expr_syms(r->Ok_0) == lexeme_syms(ls).drop_last()
                    && expr_fits(r->Ok_0, 0) && numbers_valid(expr_syms(r->Ok_0)),
                Err(f) => 0 <= f.1 < ls.len() && r == Err::<Expr, CalcError>(
                    CalcError::Parse(ParseError { kind: f.0, token: ls[f.1].0, offset: ls[f.1].2 as usize }),
                ),
            },
        },
{
    match tokenize(text) {
        Err(le) => Err(CalcError::Lex(le)),
        Ok(tokens) => {
            let ghost ls = lexemes(tokens@);
            proof {
                lemma_lex_well_formed(crate::lexer::trimmed(text@), 0);
                assert(kinds(tokens@) =~= lexeme_kinds(ls));
                assert(syms(tokens@) =~= lexeme_syms(ls));
                assert forall|i: int| 0 <= i < tokens@.len() implies (#[trigger] tokens@[i].token_type
                    == TokenType::Num) == (tokens@[i].value is Some) by {
                    assert(ls[i] == tokens@[i]@);
                }
                assert(ls[ls.len() - 1] == tokens@[tokens@.len() - 1]@);
            }
            let mut parser = Parser::new(tokens);
            match parser.parse() {
                Ok(e) => {
                    proof {
                        let m = parser.index as int;
                        assert(ls[m] == parser.tokens@[m]@);
                        assert(m == ls.len() - 1);
                        assert(syms(parser.tokens@).subrange(0, m) =~= lexeme_syms(ls).drop_last());
                        let ss = expr_syms(e);
                        assert forall|i: int| 0 <= i < ss.len() && (#[trigger] ss[i]).1 is Some implies number_text(
                            ss[i].1->Some_0,
                        ) by {
                            assert(ss[i] == (ls[i].0, ls[i].1));
                        }
                    }
                    Ok(e)
                },
                Err(err) => {
                    proof {
                        let f = p_parse(lexeme_kinds(ls), 0)->Err_0;
                        assert(ls[f.1] == parser.tokens@[f.1]@);
                    }
                    Err(CalcError::Parse(err))
                },
            }
        },
    }
}

} // verus!
