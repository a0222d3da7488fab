use vstd::prelude::*;

verus! {

/// The kinds of token the tokenizer emits.
#[derive(Debug, Clone, Copy, PartialEq, Eq, Structural)]
pub enum TokenType {
    EOF,
    Num,
    Add,
    Sub,
    Mult,
    Div,
    Pow,
    LeftParen,
    RightParen,
}

/// One token: its kind, the digit text of a number (present only for
/// `Num`), and its character offset in the trimmed input.
#[derive(Debug, Clone, PartialEq)]
pub struct Token {
    pub token_type: TokenType,
    pub value: Option<Vec<char>>,
    pub start_pos: usize,
}

/// What a token is, without its storage: kind, number text, offset.
pub type Lexeme = (TokenType, Option<Seq<char>>, int);

impl View for Token {
    type V = Lexeme;

    open spec fn view(&self) -> Lexeme {
        (
            self.token_type,
            match self.value {
                Some(v) => Some(v@),
                None => None,
            },
            self.start_pos as int,
        )
    }
}

impl Token {
    pub fn new(token_type: TokenType, value: Option<Vec<char>>, start_pos: usize) -> (r: Token)
        ensures
            r.token_type == token_type,
            r.value == value,
            r.start_pos == start_pos,
    {
        Token { token_type, value, start_pos }
    }

    pub fn token_type(&self) -> (r: &TokenType)
        ensures
            *r == self.token_type,
    {
        &self.token_type
    }

    pub fn start_pos(&self) -> (r: usize)
        ensures
            r == self.start_pos,
    {
        self.start_pos
    }

    /// The digit text of a number token.
    pub fn value(&self) -> (r: Option<&Vec<char>>)
        ensures
            r == match self.value {
                Some(v) => Some(&v),
                None => None::<&Vec<char>>,
            },
    {
        match &self.value {
            Some(v) => Some(v),
            None => None,
        }
    }
}

/// Why a text could not be tokenized.
#[derive(Debug, Clone, Copy, PartialEq, Eq, Structural)]
pub enum LexError {
    /// A character that starts no token, with its offset.
    UnknownCharacter(char, usize),
    /// A run of digits and points that is no decimal number, with its offset.
    MalformedNumber(usize),
}

/// The characters with Unicode's White_Space property.
pub open spec fn is_white(c: char) -> bool {
    ('\u{9}' <= c && c <= '\u{d}') || c == ' ' || c == '\u{85}' || c == '\u{a0}' || c == '\u{1680}'
        || ('\u{2000}' <= c && c <= '\u{200a}') || c == '\u{2028}' || c == '\u{2029}' || c
        == '\u{202f}' || c == '\u{205f}' || c == '\u{3000}'
}

pub open spec fn is_digit(c: char) -> bool {
    '0' <= c && c <= '9'
}

/// A character that belongs to a number's run.
pub open spec fn is_number_char(c: char) -> bool {
    is_digit(c) || c == '.'
}

/// The token kind of a single-character operator or parenthesis.
pub open spec fn symbol_kind(c: char) -> Option<TokenType> {
    if c == '+' {
        Some(TokenType::Add)
    } else if c == '-' {
        Some(TokenType::Sub)
    } else if c == '*' {
        Some(TokenType::Mult)
    } else if c == '/' {
        Some(TokenType::Div)
    } else if c == '^' {
        Some(TokenType::Pow)
    } else if c == '(' {
        Some(TokenType::LeftParen)
    } else if c == ')' {
        Some(TokenType::RightParen)
    } else {
        None
    }
}

/// Number of decimal points in `t`.
pub open spec fn points(t: Seq<char>) -> nat
    decreases t.len(),
{
    if t.len() == 0 {
        0
    } else {
        points(t.drop_last()) + if t.last() == '.' {
            1nat
        } else {
            0nat
        }
    }
}

/// Number of digits in `t`.
pub open spec fn digits(t: Seq<char>) -> nat
    decreases t.len(),
{
    if t.len() == 0 {
        0
    } else {
        digits(t.drop_last()) + if is_digit(t.last()) {
            1nat
        } else {
            0nat
        }
    }
}

/// A run of digits and points reads as a decimal number when it holds at
/// least one digit and at most one point (`7`, `7.`, `.5`, `2.25`).
pub open spec fn valid_number(t: Seq<char>) -> bool {
    digits(t) >= 1 && points(t) <= 1
}

/// End of the maximal run of number characters that starts at `i`.
pub open spec fn run_end(s: Seq<char>, i: int) -> int
    decreases s.len() - i,
{
    if 0 <= i < s.len() && is_number_char(s[i]) {
        run_end(s, i + 1)
    } else {
        i
    }
}

/// Index of the first character at or after `i` that is not white space.
pub open spec fn skip_white(s: Seq<char>, i: int) -> int
    decreases s.len() - i,
{
    if 0 <= i < s.len() && is_white(s[i]) {
        skip_white(s, i + 1)
    } else {
        i
    }
}

/// One past the last character before `j` that is not white space.
pub open spec fn skip_white_back(s: Seq<char>, j: int) -> int
    decreases j,
{
    if 0 < j <= s.len() && is_white(s[j - 1]) {
        skip_white_back(s, j - 1)
    } else {
        j
    }
}

/// `s` without its leading and trailing white space.
pub open spec fn trimmed(s: Seq<char>) -> Seq<char> {
    let a = skip_white(s, 0);
    if a >= s.len() {
        Seq::empty()
    } else {
        s.subrange(a, skip_white_back(s, s.len() as int))
    }
}

/// `p` in front of a successful result; an error stays as it is.
pub open spec fn prepend<T, E>(p: Seq<T>, r: Result<Seq<T>, E>) -> Result<Seq<T>, E> {
    match r {
        Ok(t) => Ok(p + t),
        Err(e) => Err(e),
    }
}

/// The tokens of `s` from position `i` on: white space is skipped, a maximal
/// run of digits and points is one number, each operator and parenthesis is
/// one token, and an end-of-input token closes the sequence.
pub open spec fn lex_from(s: Seq<char>, i: int) -> Result<Seq<Lexeme>, LexError>
    decreases s.len() - i,
{
    if i < 0 || i >= s.len() {
        Ok(seq![(TokenType::EOF, None, i)])
    } else if is_white(s[i]) {
        lex_from(s, i + 1)
    } else if is_number_char(s[i]) {
        let e = run_end(s, i);
        if i < e <= s.len() && valid_number(s.subrange(i, e)) {
            prepend(seq![(TokenType::Num, Some(s.subrange(i, e)), i)], lex_from(s, e))
        } else {
            Err(LexError::MalformedNumber(i as usize))
        }
    } else {
        match symbol_kind(s[i]) {
            Some(k) => prepend(seq![(k, None, i)], lex_from(s, i + 1)),
            None => Err(LexError::UnknownCharacter(s[i], i as usize)),
        }
    }
}

/// The tokens of a whole text, offsets counted in the trimmed text.
pub open spec fn tokenize_spec(s: Seq<char>) -> Result<Seq<Lexeme>, LexError> {
    lex_from(trimmed(s), 0)
}

pub open spec fn lexemes(v: Seq<Token>) -> Seq<Lexeme> {
    v.map_values(|t: Token| t@)
}

/// Relies on char::is_whitespace: true exactly for the characters with the
/// Unicode White_Space property.
#[verifier::external_body]
fn white_space(c: char) -> (r: bool)
    ensures
        r == is_white(c),
{
    c.is_whitespace()
}

/// Relies on str::chars: the characters of `s` in order.
#[verifier::external_body]
fn chars_of(s: &str) -> (r: Vec<char>)
    ensures
        r@ == s@,
{
    s.chars().collect()
}

fn symbol(c: char) -> (r: Option<TokenType>)
    ensures
        r == symbol_kind(c),
{
    if c == '+' {
        Some(TokenType::Add)
    } else if c == '-' {
        Some(TokenType::Sub)
    } else if c == '*' {
        Some(TokenType::Mult)
    } else if c == '/' {
        Some(TokenType::Div)
    } else if c == '^' {
        Some(TokenType::Pow)
    } else if c == '(' {
        Some(TokenType::LeftParen)
    } else if c == ')' {
        Some(TokenType::RightParen)
    } else {
        None
    }
}

proof fn lemma_prepend_assoc<T, E>(a: Seq<T>, b: Seq<T>, r: Result<Seq<T>, E>)
    ensures
        prepend(a, prepend(b, r)) == prepend(a + b, r),
{
    if let Ok(t) = r {
        assert(a + (b + t) =~= (a + b) + t);
    }
}

/// The tokens of `text`, offsets counted from its first character that is
/// not white space.
pub fn tokenize(text: &str) -> (r: Result<Vec<Token>, LexError>)
    ensures
        match r {
            Ok(v) => tokenize_spec(text@) == Ok::<Seq<Lexeme>, LexError>(lexemes(v@)),
            Err(e) => tokenize_spec(text@) == Err::<Seq<Lexeme>, LexError>(e),
        },
{
    let mut lexer = Lexer::new(text.to_owned());
    lexer.lex()
}

/// Scans a text into tokens.
pub struct Lexer {
    pub input: Vec<char>,
    pub current_pos: usize,
}

impl Lexer {
    /// A lexer over `input` without its leading and trailing white space.
    pub fn new(input: String) -> (r: Lexer)
        ensures
            r.input@ == trimmed(input@),
            r.current_pos == 0,
    {
        let s = chars_of(input.as_str());
        let n = s.len();
        let mut a: usize = 0;
        while a < n && white_space(s[a])
            invariant
                n == s@.len(),
                a <= n,
                skip_white(s@, a as int) == skip_white(s@, 0),
            decreases n - a,
        {
            a = a + 1;
        }
        let mut text: Vec<char> = Vec::new();
        if a < n {
            let mut b: usize = n;
            while b > 0 && white_space(s[b - 1])
                invariant
                    n == s@.len(),
                    b <= n,
                    skip_white_back(s@, b as int) == skip_white_back(s@, n as int),
                decreases b,
            {
                b = b - 1;
            }
            proof {
                lemma_white_bounds(s@);
            }
            let mut k: usize = a;
            while k < b
                invariant
                    a <= k <= b <= n,
                    n == s@.len(),
                    text@ == s@.subrange(a as int, k as int),
                decreases b - k,
            {
                text.push(s[k]);
                k = k + 1;
            }
        }
        Lexer { input: text, current_pos: 0 }
    }

    /// The tokens of the input from the current position on, closed by an
    /// end-of-input token.
    pub fn lex(&mut self) -> (r: Result<Vec<Token>, LexError>)
        requires
            old(self).current_pos <= old(self).input@.len(),
        ensures
            final(self).input@ == old(self).input@,
            match r {
                Ok(v) => lex_from(old(self).input@, old(self).current_pos as int) == Ok::<
                    Seq<Lexeme>,
                    LexError,
                >(lexemes(v@)),
                Err(e) => lex_from(old(self).input@, old(self).current_pos as int) == Err::<
                    Seq<Lexeme>,
                    LexError,
                >(e),
            },
    {
        let ghost s = self.input@;
        let ghost start = self.current_pos as int;
        let mut tokens: Vec<Token> = Vec::new();
        let n = self.input.len();
        let mut pos = self.current_pos;
        while pos < n
            invariant
                self.input@ == s,
                s == old(self).input@,
                start == old(self).current_pos,
                n == s.len(),
                pos <= n,
                lex_from(s, start) == prepend(lexemes(tokens@), lex_from(s, pos as int)),
            decreases n - pos,
        {
            let c = self.input[pos];
            let ghost before = tokens@;
            if white_space(c) {
                pos = pos + 1;
            } else if ('0' <= c && c <= '9') || c == '.' {
                match self.lex_num(pos) {
                    Ok((t, next)) => {
                        tokens.push(t);
                        pos = next;
                        proof {
                            lemma_prepend_assoc(lexemes(before), seq![t@], lex_from(s, pos as int));
                            assert(lexemes(tokens@) =~= lexemes(before) + seq![t@]);
                        }
                    },
                    Err(e) => {
                        assert(lex_from(s, pos as int) == Err::<Seq<Lexeme>, LexError>(e));
                        return Err(e);
                    },
                }
            } else {
                match symbol(c) {
                    Some(k) => {
                        let t = Token { token_type: k, value: None, start_pos: pos };
                        tokens.push(t);
                        pos = pos + 1;
                        proof {
                            lemma_prepend_assoc(lexemes(before), seq![t@], lex_from(s, pos as int));
                            assert(lexemes(tokens@) =~= lexemes(before) + seq![t@]);
                        }
                    },
                    None => {
                        assert(lex_from(s, pos as int) == Err::<Seq<Lexeme>, LexError>(
                            LexError::UnknownCharacter(c, pos),
                        ));
                        return Err(LexError::UnknownCharacter(c, pos));
                    },
                }
            }
        }
        self.current_pos = pos;
        let ghost before = tokens@;
        let t = Token { token_type: TokenType::EOF, value: None, start_pos: pos };
        tokens.push(t);
        proof {
            assert(lexemes(tokens@) =~= lexemes(before) + seq![t@]);
        }
        Ok(tokens)
    }

    /// Reads the number that starts at `start`; returns it with the position
    /// just past it.
    fn lex_num(&self, start: usize) -> (r: Result<(Token, usize), LexError>)
        requires
            start < self.input@.len(),
            is_number_char(self.input@[start as int]),
        ensures
            ({
                let s = self.input@;
                let i = start as int;
                let e = run_end(s, i);
                &&& i < e <= s.len()
                &&& match r {
                    Ok((t, next)) => valid_number(s.subrange(i, e)) && next == e
                        && t@ == (TokenType::Num, Some(s.subrange(i, e)), i),
                    Err(err) => !valid_number(s.subrange(i, e)) && err == LexError::MalformedNumber(
                        start,
                    ),
                }
            }),
    {
        let ghost s = self.input@;
        let n = self.input.len();
        let mut text: Vec<char> = Vec::new();
        let mut j: usize = start;
        let mut n_points: usize = 0;
        let mut n_digits: usize = 0;
        while j < n && (('0' <= self.input[j] && self.input[j] <= '9') || self.input[j] == '.')
            invariant
                self.input@ == s,
                n == s.len(),
                start < n,
                is_number_char(s[start as int]),
                start <= j <= n,
                text@ == s.subrange(start as int, j as int),
                n_points == points(text@),
                n_digits == digits(text@),
                n_points + n_digits == j - start,
                run_end(s, start as int) == run_end(s, j as int),
            decreases n - j,
        {
            let c = self.input[j];
            let ghost prev = text@;
            text.push(c);
            proof {
                assert(text@.drop_last() =~= prev);
            }
            if c == '.' {
                n_points = n_points + 1;
            } else {
                n_digits = n_digits + 1;
            }
            j = j + 1;
            assert(text@ =~= s.subrange(start as int, j as int));
        }
        if n_digits >= 1 && n_points <= 1 {
            Ok((Token { token_type: TokenType::Num, value: Some(text), start_pos: start }, j))
        } else {
            Err(LexError::MalformedNumber(start))
        }
    }
}

proof fn lemma_white_bounds(s: Seq<char>)
    requires
        skip_white(s, 0) < s.len(),
    ensures
        skip_white(s, 0) < skip_white_back(s, s.len() as int) <= s.len(),
{
    lemma_skip_white_stops(s, 0);
    lemma_skip_white_back_above(s, s.len() as int, skip_white(s, 0));
}

proof fn lemma_skip_white_stops(s: Seq<char>, i: int)
    requires
        0 <= i,
        skip_white(s, i) < s.len(),
    ensures
        i <= skip_white(s, i),
        !is_white(s[skip_white(s, i)]),
    decreases s.len() - i,
{
    if 0 <= i < s.len() && is_white(s[i]) {
        lemma_skip_white_stops(s, i + 1);
    }
}

proof fn lemma_skip_white_back_above(s: Seq<char>, j: int, a: int)
    requires
        0 <= a < j <= s.len(),
        !is_white(s[a]),
    ensures
        a < skip_white_back(s, j) <= j,
    decreases j,
{
    if 0 < j <= s.len() && is_white(s[j - 1]) {
        lemma_skip_white_back_above(s, j - 1, a);
    }
}

} // verus!
