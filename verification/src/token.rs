//! Tokens and the literals that they carry.

use vstd::prelude::*;

verus! {

/// The category of a token.
#[derive(Debug, Clone, Copy, PartialEq, Eq, Structural)]
pub enum TokenType {
    // Single-character tokens.
    LeftParen,
    RightParen,
    LeftBrace,
    RightBrace,
    Comma,
    Dot,
    Minus,
    Plus,
    Semicolon,
    Colon,
    Slash,
    Star,
    QuestionMark,
    // One or two character tokens.
    Bang,
    BangEqual,
    Equal,
    EqualEqual,
    Greater,
    GreaterEqual,
    Less,
    LessEqual,
    // Literals.
    Identifier,
    String,
    Number,
    // Keywords.
    And,
    Class,
    Else,
    False,
    Fun,
    For,
    If,
    Nil,
    Or,
    Print,
    Return,
    Super,
    This,
    True,
    Var,
    While,
    Eof,
}

/// Whether `c` is one of the ten decimal digits.
pub open spec fn is_digit(c: char) -> bool {
    '0' <= c && c <= '9'
}

/// Where the run of digits that starts at `pos` ends: the first place from
/// `pos` on that holds no digit, or the end of `s`.
pub open spec fn digits_end(s: Seq<char>, pos: int) -> int
    decreases s.len() - pos,
{
    if 0 <= pos < s.len() && is_digit(s[pos]) {
        digits_end(s, pos + 1)
    } else {
        pos
    }
}

/// Where the numeral that starts at `pos` ends: after its digits, and after
/// a point and further digits where at least one digit follows the point.
pub open spec fn numeral_end(s: Seq<char>, pos: int) -> int {
    let whole = digits_end(s, pos);
    if whole + 1 < s.len() && s[whole] == '.' && is_digit(s[whole + 1]) {
        digits_end(s, whole + 1)
    } else {
        whole
    }
}

/// The shape of a numeral: one or more digits, then optionally a point and
/// one or more digits, and nothing else.
pub open spec fn is_numeral(s: Seq<char>) -> bool {
    s.len() > 0 && is_digit(s[0]) && numeral_end(s, 0) == s.len()
}

/// A constant as it is written in a program.
///
/// A number is kept as its numeral, exactly as written: the library never
/// computes on numbers, it hands them to the host that runs the program.
#[derive(Debug)]
pub enum Literal {
    Number(String),
    String(String),
    True,
    False,
    Nil,
}

/// What a `Literal` stands for.
pub enum LiteralView {
    Number(Seq<char>),
    String(Seq<char>),
    True,
    False,
    Nil,
}

impl View for Literal {
    type V = LiteralView;

    open spec fn view(&self) -> LiteralView {
        match self {
            Literal::Number(numeral) => LiteralView::Number(numeral@),
            Literal::String(text) => LiteralView::String(text@),
            Literal::True => LiteralView::True,
            Literal::False => LiteralView::False,
            Literal::Nil => LiteralView::Nil,
        }
    }
}

impl Clone for Literal {
    fn clone(&self) -> (copy: Self)
        ensures
            copy == *self,
    {
        match self {
            Literal::Number(numeral) => Literal::Number(numeral.clone()),
            Literal::String(text) => Literal::String(text.clone()),
            Literal::True => Literal::True,
            Literal::False => Literal::False,
            Literal::Nil => Literal::Nil,
        }
    }
}

impl Literal {
    /// The literal that a keyword denotes: `true`, `false` and `nil` denote
    /// themselves, and every other kind of token denotes `nil`.
    pub fn from(value: &TokenType) -> (literal: Literal)
        ensures
            literal == crate::grammar::keyword_literal(*value),
    {
        match value {
            TokenType::True => Literal::True,
            TokenType::False => Literal::False,
            _ => Literal::Nil,
        }
    }
}

/// A classified piece of the source text.
#[derive(Debug)]
pub struct Token {
    pub token_type: TokenType,
    pub lexeme: String,
    pub literal: Option<Literal>,
    pub line: i32,
}

/// What a `Token` stands for.
pub struct TokenView {
    pub kind: TokenType,
    pub lexeme: Seq<char>,
    pub literal: Option<LiteralView>,
    pub line: int,
}

impl View for Token {
    type V = TokenView;

    open spec fn view(&self) -> TokenView {
        TokenView {
            kind: self.token_type,
            lexeme: self.lexeme@,
            literal: match self.literal {
                Some(literal) => Some(literal@),
                None => None,
            },
            line: self.line as int,
        }
    }
}

impl Clone for Token {
    fn clone(&self) -> (copy: Self)
        ensures
            copy == *self,
    {
        let literal = match &self.literal {
            Some(literal) => Some(literal.clone()),
            None => None,
        };
        Token { token_type: self.token_type, lexeme: self.lexeme.clone(), literal, line: self.line }
    }
}

impl Token {
    pub fn new(token_type: TokenType, lexeme: String, literal: Option<Literal>, line: i32) -> (token: Self)
        ensures
            token.token_type == token_type,
            token.lexeme == lexeme,
            token.literal == literal,
            token.line == line,
    {
        Self { token_type, lexeme, literal, line }
    }

    pub fn lexeme(&self) -> (lexeme: &str)
        ensures
            lexeme@ == self.lexeme@,
    {
        self.lexeme.as_str()
    }

    pub fn token_type(&self) -> (kind: &TokenType)
        ensures
            *kind == self.token_type,
    {
        &self.token_type
    }

    pub fn literal(&self) -> (literal: Option<Literal>)
        ensures
            literal == self.literal,
    {
        match &self.literal {
            Some(literal) => Some(literal.clone()),
            None => None,
        }
    }

    pub fn line(&self) -> (line: &i32)
        ensures
            *line == self.line,
    {
        &self.line
    }
}

} // verus!
