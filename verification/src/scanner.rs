//! The scanner: from a source text to a sequence of tokens.

use crate::text::{decode, same_text, text_between};
use crate::token::{
    digits_end, is_digit, is_numeral, numeral_end, Literal, LiteralView, Token, TokenType,
    TokenView,
};
use vstd::prelude::*;
use vstd::utf8::{decode_utf8, valid_utf8};

verus! {

/// What can be wrong with a piece of source text.
#[derive(Debug)]
pub enum Error {
    /// A character that begins no lexeme, and the line it stands on.
    UnexpectedChar(char, i32),
    /// A string literal that is still open where the source ends, and the
    /// line on which the source ends.
    UnterminatedString(i32),
    /// A text that was to be a numeral and has not the shape of one.
    ParseError(String),
}

/// What an `Error` stands for.
pub enum ErrorView {
    UnexpectedChar(char, int),
    UnterminatedString(int),
    ParseError(Seq<char>),
}

impl View for Error {
    type V = ErrorView;

    open spec fn view(&self) -> ErrorView {
        match self {
            Error::UnexpectedChar(c, line) => ErrorView::UnexpectedChar(*c, *line as int),
            Error::UnterminatedString(line) => ErrorView::UnterminatedString(*line as int),
            Error::ParseError(text) => ErrorView::ParseError(text@),
        }
    }
}

impl Clone for Error {
    fn clone(&self) -> (copy: Self)
        ensures
            copy == *self,
    {
        match self {
            Error::UnexpectedChar(c, line) => Error::UnexpectedChar(*c, *line),
            Error::UnterminatedString(line) => Error::UnterminatedString(*line),
            Error::ParseError(text) => Error::ParseError(text.clone()),
        }
    }
}

/// The lexical errors of one source text, in the order in which they occur.
#[derive(Debug)]
pub struct Errors(pub Vec<Error>);

impl View for Errors {
    type V = Seq<ErrorView>;

    open spec fn view(&self) -> Seq<ErrorView> {
        self.0@.map_values(|error: Error| error@)
    }
}

impl Errors {
    fn new() -> (errors: Self)
        ensures
            errors@ == Seq::<ErrorView>::empty(),
    {
        let errors = Errors(Vec::new());
        assert(errors@ =~= Seq::<ErrorView>::empty());
        errors
    }

    fn push(&mut self, val: Error)
        ensures
            final(self)@ == old(self)@.push(val@),
    {
        self.0.push(val);
        assert(self@ =~= old(self)@.push(val@));
    }

    fn is_empty(&self) -> (empty: bool)
        ensures
            empty == (self@.len() == 0),
    {
        self.0.is_empty()
    }
}

impl Clone for Errors {
    fn clone(&self) -> (copy: Self)
        ensures
            copy@ == self@,
    {
        let mut copy = Errors::new();
        let mut i: usize = 0;
        while i < self.0.len()
            invariant
                0 <= i <= self.0.len(),
                copy@ == self@.subrange(0, i as int),
            decreases self.0.len() - i,
        {
            copy.push(self.0[i].clone());
            i += 1;
            assert(copy@ =~= self@.subrange(0, i as int));
        }
        assert(copy@ =~= self@);
        copy
    }
}

/// What a sequence of tokens stands for.
pub open spec fn token_views(tokens: Seq<Token>) -> Seq<TokenView> {
    tokens.map_values(|token: Token| token@)
}

/// A copy of `tokens`.
pub fn clone_tokens(tokens: &Vec<Token>) -> (copy: Vec<Token>)
    ensures
        copy@ == tokens@,
{
    let mut copy: Vec<Token> = Vec::new();
    let mut i: usize = 0;
    while i < tokens.len()
        invariant
            0 <= i <= tokens.len(),
            copy@ == tokens@.subrange(0, i as int),
        decreases tokens.len() - i,
    {
        copy.push(tokens[i].clone());
        i += 1;
        assert(copy@ =~= tokens@.subrange(0, i as int));
    }
    assert(copy@ =~= tokens@);
    copy
}

/// Whether `c` is a letter of the Latin alphabet or an underscore.
pub open spec fn is_alpha(c: char) -> bool {
    ('a' <= c && c <= 'z') || ('A' <= c && c <= 'Z') || c == '_'
}

/// Whether `c` can stand inside an identifier.
pub open spec fn is_alphanumeric(c: char) -> bool {
    is_alpha(c) || is_digit(c)
}

/// Where the run of identifier characters that starts at `pos` ends.
pub open spec fn word_end(src: Seq<char>, pos: int) -> int
    decreases src.len() - pos,
{
    if 0 <= pos < src.len() && is_alphanumeric(src[pos]) {
        word_end(src, pos + 1)
    } else {
        pos
    }
}

/// The first place from `pos` on that holds `stop`, or the end of `src`.
pub open spec fn find(src: Seq<char>, pos: int, stop: char) -> int
    decreases src.len() - pos,
{
    if 0 <= pos < src.len() && src[pos] != stop {
        find(src, pos + 1, stop)
    } else {
        pos
    }
}

/// How many line feeds `s` holds.
pub open spec fn newlines(s: Seq<char>) -> int
    decreases s.len(),
{
    if s.len() == 0 {
        0
    } else {
        newlines(s.drop_last()) + if s.last() == '\n' {
            1int
        } else {
            0int
        }
    }
}

/// The reserved word that `word` is, if it is one.
pub open spec fn keyword(word: Seq<char>) -> Option<TokenType> {
    if word == "and"@ {
        Some(TokenType::And)
    } else if word == "class"@ {
        Some(TokenType::Class)
    } else if word == "else"@ {
        Some(TokenType::Else)
    } else if word == "false"@ {
        Some(TokenType::False)
    } else if word == "for"@ {
        Some(TokenType::For)
    } else if word == "fun"@ {
        Some(TokenType::Fun)
    } else if word == "if"@ {
        Some(TokenType::If)
    } else if word == "nil"@ {
        Some(TokenType::Nil)
    } else if word == "or"@ {
        Some(TokenType::Or)
    } else if word == "print"@ {
        Some(TokenType::Print)
    } else if word == "return"@ {
        Some(TokenType::Return)
    } else if word == "super"@ {
        Some(TokenType::Super)
    } else if word == "this"@ {
        Some(TokenType::This)
    } else if word == "true"@ {
        Some(TokenType::True)
    } else if word == "var"@ {
        Some(TokenType::Var)
    } else if word == "while"@ {
        Some(TokenType::While)
    } else {
        None
    }
}

/// What reading one lexeme comes to: where the next one begins, the line
/// there, and the token or the error that the lexeme gave, if any.
pub struct Lexed {
    pub next: int,
    pub line: int,
    pub token: Option<TokenView>,
    pub error: Option<ErrorView>,
}

/// A token of `width` characters that carries no literal.
pub open spec fn plain(src: Seq<char>, pos: int, line: int, width: int, kind: TokenType) -> Lexed {
    Lexed {
        next: pos + width,
        line,
        token: Some(
            TokenView { kind, lexeme: src.subrange(pos, pos + width), literal: None, line },
        ),
        error: None,
    }
}

/// Nothing to keep, up to `next`.
pub open spec fn skipped(next: int, line: int) -> Lexed {
    Lexed { next, line, token: None, error: None }
}

/// Whether the character after the one at `pos` is `c`.
pub open spec fn followed_by(src: Seq<char>, pos: int, c: char) -> bool {
    pos + 1 < src.len() && src[pos + 1] == c
}

/// An operator of one character that becomes another where `=` follows it.
pub open spec fn lex_operator(
    src: Seq<char>,
    pos: int,
    line: int,
    alone: TokenType,
    with_equal: TokenType,
) -> Lexed {
    if followed_by(src, pos, '=') {
        plain(src, pos, line, 2, with_equal)
    } else {
        plain(src, pos, line, 1, alone)
    }
}

/// A string literal, from its opening quote at `pos`. It runs to the next
/// quote, over line feeds too; its value is what stands between the quotes.
pub open spec fn lex_string(src: Seq<char>, pos: int, line: int) -> Lexed {
    let close = find(src, pos + 1, '"');
    let last_line = line + newlines(src.subrange(pos + 1, close));
    if close >= src.len() {
        Lexed {
            next: close,
            line: last_line,
            token: None,
            error: Some(ErrorView::UnterminatedString(last_line)),
        }
    } else {
        Lexed {
            next: close + 1,
            line: last_line,
            token: Some(
                TokenView {
                    kind: TokenType::String,
                    lexeme: src.subrange(pos, close + 1),
                    literal: Some(LiteralView::String(src.subrange(pos + 1, close))),
                    line: last_line,
                },
            ),
            error: None,
        }
    }
}

/// A numeral, from its first digit at `pos`.
pub open spec fn lex_number(src: Seq<char>, pos: int, line: int) -> Lexed {
    let end = numeral_end(src, pos);
    let lexeme = src.subrange(pos, end);
    Lexed {
        next: end,
        line,
        token: Some(
            TokenView {
                kind: TokenType::Number,
                lexeme,
                literal: Some(LiteralView::Number(lexeme)),
                line,
            },
        ),
        error: None,
    }
}

/// An identifier or a reserved word, from its first character at `pos`.
pub open spec fn lex_word(src: Seq<char>, pos: int, line: int) -> Lexed {
    let end = word_end(src, pos + 1);
    let lexeme = src.subrange(pos, end);
    let kind = match keyword(lexeme) {
        Some(kind) => kind,
        None => TokenType::Identifier,
    };
    Lexed { next: end, line, token: Some(TokenView { kind, lexeme, literal: None, line }), error: None }
}

/// The lexeme that begins at `pos`, which is a place inside `src`.
pub open spec fn lex(src: Seq<char>, pos: int, line: int) -> Lexed {
    let c = src[pos];
    if c == '(' {
        plain(src, pos, line, 1, TokenType::LeftParen)
    } else if c == ')' {
        plain(src, pos, line, 1, TokenType::RightParen)
    } else if c == '{' {
        plain(src, pos, line, 1, TokenType::LeftBrace)
    } else if c == '}' {
        plain(src, pos, line, 1, TokenType::RightBrace)
    } else if c == ',' {
        plain(src, pos, line, 1, TokenType::Comma)
    } else if c == '.' {
        plain(src, pos, line, 1, TokenType::Dot)
    } else if c == '-' {
        plain(src, pos, line, 1, TokenType::Minus)
    } else if c == '+' {
        plain(src, pos, line, 1, TokenType::Plus)
    } else if c == ';' {
        plain(src, pos, line, 1, TokenType::Semicolon)
    } else if c == ':' {
        plain(src, pos, line, 1, TokenType::Colon)
    } else if c == '*' {
        plain(src, pos, line, 1, TokenType::Star)
    } else if c == '?' {
        plain(src, pos, line, 1, TokenType::QuestionMark)
    } else if c == '!' {
        lex_operator(src, pos, line, TokenType::Bang, TokenType::BangEqual)
    } else if c == '=' {
        lex_operator(src, pos, line, TokenType::Equal, TokenType::EqualEqual)
    } else if c == '<' {
        lex_operator(src, pos, line, TokenType::Less, TokenType::LessEqual)
    } else if c == '>' {
        lex_operator(src, pos, line, TokenType::Greater, TokenType::GreaterEqual)
    } else if c == '/' {
        if followed_by(src, pos, '/') {
            skipped(find(src, pos + 2, '\n'), line)
        } else {
            plain(src, pos, line, 1, TokenType::Slash)
        }
    } else if c == ' ' || c == '\r' || c == '\t' {
        skipped(pos + 1, line)
    } else if c == '\n' {
        skipped(pos + 1, line + 1)
    } else if c == '"' {
        lex_string(src, pos, line)
    } else if is_digit(c) {
        lex_number(src, pos, line)
    } else if is_alpha(c) {
        lex_word(src, pos, line)
    } else {
        Lexed {
            next: pos + 1,
            line,
            token: None,
            error: Some(ErrorView::UnexpectedChar(c, line)),
        }
    }
}

/// What a source text holds from some place on: its tokens and its errors,
/// each in the order of the text, and the line on which it ends.
pub struct Scanned {
    pub tokens: Seq<TokenView>,
    pub errors: Seq<ErrorView>,
    pub line: int,
}

/// The one token or none that a lexeme gave.
pub open spec fn token_of(lexed: Lexed) -> Seq<TokenView> {
    match lexed.token {
        Some(token) => seq![token],
        None => seq![],
    }
}

/// The one error or none that a lexeme gave.
pub open spec fn error_of(lexed: Lexed) -> Seq<ErrorView> {
    match lexed.error {
        Some(error) => seq![error],
        None => seq![],
    }
}

/// The tokens and the errors of `src` from `pos` on, read lexeme by lexeme.
pub open spec fn scan_from(src: Seq<char>, pos: int, line: int) -> Scanned
    decreases src.len() - pos,
{
    if 0 <= pos < src.len() {
        let lexed = lex(src, pos, line);
        proof {
            lemma_lex_advances(src, pos, line);
        }
        let rest = scan_from(src, lexed.next, lexed.line);
        Scanned {
            tokens: token_of(lexed) + rest.tokens,
            errors: error_of(lexed) + rest.errors,
            line: rest.line,
        }
    } else {
        Scanned { tokens: seq![], errors: seq![], line }
    }
}

/// The token that closes every token sequence.
pub open spec fn end_of_input() -> TokenView {
    TokenView { kind: TokenType::Eof, lexeme: seq![], literal: None, line: 0 }
}

/// The outcome of scanning a whole source text: its tokens with the closing
/// token behind them where the text holds no error, and else its errors.
pub open spec fn scan_result(src: Seq<char>) -> Result<Seq<TokenView>, Seq<ErrorView>> {
    let scanned = scan_from(src, 0, 1);
    if scanned.errors.len() == 0 {
        Ok(scanned.tokens.push(end_of_input()))
    } else {
        Err(scanned.errors)
    }
}

/// A run of digits ends at or after its start, inside the text, and holds
/// digits only.
pub proof fn lemma_digits_end(s: Seq<char>, pos: int)
    requires
        0 <= pos <= s.len(),
    ensures
        pos <= digits_end(s, pos) <= s.len(),
        forall|i: int| pos <= i < digits_end(s, pos) ==> is_digit(#[trigger] s[i]),
        digits_end(s, pos) < s.len() ==> !is_digit(s[digits_end(s, pos)]),
    decreases s.len() - pos,
{
    if pos < s.len() && is_digit(s[pos]) {
        lemma_digits_end(s, pos + 1);
    }
}

/// A run of identifier characters ends at or after its start, inside the text.
pub proof fn lemma_word_end(s: Seq<char>, pos: int)
    requires
        0 <= pos <= s.len(),
    ensures
        pos <= word_end(s, pos) <= s.len(),
    decreases s.len() - pos,
{
    if pos < s.len() && is_alphanumeric(s[pos]) {
        lemma_word_end(s, pos + 1);
    }
}

/// A search ends at or after its start, inside the text.
pub proof fn lemma_find(s: Seq<char>, pos: int, stop: char)
    requires
        0 <= pos <= s.len(),
    ensures
        pos <= find(s, pos, stop) <= s.len(),
    decreases s.len() - pos,
{
    if pos < s.len() && s[pos] != stop {
        lemma_find(s, pos + 1, stop);
    }
}

/// A text holds no more line feeds than characters.
pub proof fn lemma_newlines_bound(s: Seq<char>)
    ensures
        0 <= newlines(s) <= s.len(),
    decreases s.len(),
{
    if s.len() > 0 {
        lemma_newlines_bound(s.drop_last());
    }
}

/// The line feeds of two texts, one behind the other, are those of the
/// first and those of the second.
pub proof fn lemma_newlines_add(first: Seq<char>, second: Seq<char>)
    ensures
        newlines(first + second) == newlines(first) + newlines(second),
    decreases second.len(),
{
    if second.len() == 0 {
        assert(first + second =~= first);
    } else {
        lemma_newlines_add(first, second.drop_last());
        assert((first + second).drop_last() =~= first + second.drop_last());
    }
}

/// The line feeds of a part of a text, cut in two.
pub proof fn lemma_newlines_split(src: Seq<char>, from: int, middle: int, to: int)
    requires
        0 <= from <= middle <= to <= src.len(),
    ensures
        newlines(src.subrange(from, to)) == newlines(src.subrange(from, middle)) + newlines(
            src.subrange(middle, to),
        ),
{
    lemma_newlines_add(src.subrange(from, middle), src.subrange(middle, to));
    assert(src.subrange(from, middle) + src.subrange(middle, to) =~= src.subrange(from, to));
}

/// The line feeds from a place on: one for a line feed at that place, and
/// those from the next place on.
pub proof fn lemma_newlines_from(src: Seq<char>, pos: int)
    requires
        0 <= pos < src.len(),
    ensures
        newlines(src.subrange(pos, src.len() as int)) == newlines(
            src.subrange(pos + 1, src.len() as int),
        ) + if src[pos] == '\n' {
            1int
        } else {
            0int
        },
        newlines(src.subrange(pos + 1, src.len() as int)) >= 0,
{
    lemma_newlines_split(src, pos, pos + 1, src.len() as int);
    lemma_newlines_bound(src.subrange(pos + 1, src.len() as int));
    let one = src.subrange(pos, pos + 1);
    assert(one.drop_last() =~= Seq::<char>::empty());
    assert(newlines(one.drop_last()) == 0);
    assert(one.last() == src[pos]);
}

/// A source with fewer line feeds than the line counter can count: the
/// counter begins at 1, and every line feed adds one to it.
pub open spec fn countable(src: Seq<char>) -> bool {
    newlines(src) < i32::MAX - 1
}

/// A source of fewer bytes than the line counter can count has fewer line
/// feeds, too.
pub proof fn lemma_short_is_countable(bytes: Seq<u8>)
    requires
        valid_utf8(bytes),
        bytes.len() < i32::MAX - 1,
    ensures
        countable(decode_utf8(bytes)),
{
    crate::text::lemma_decoded_len(bytes);
    lemma_newlines_bound(decode_utf8(bytes));
}

/// Every lexeme holds at least one character and ends inside the text, and
/// the line count grows by no more than the lexeme is long.
pub proof fn lemma_lex_advances(src: Seq<char>, pos: int, line: int)
    requires
        0 <= pos < src.len(),
    ensures
        pos < lex(src, pos, line).next <= src.len(),
        line <= lex(src, pos, line).line <= line + (lex(src, pos, line).next - pos),
{
    lemma_find(src, pos + 1, '"');
    lemma_newlines_bound(src.subrange(pos + 1, find(src, pos + 1, '"')));
    lemma_digits_end(src, pos);
    if digits_end(src, pos) + 1 < src.len() {
        lemma_digits_end(src, digits_end(src, pos) + 1);
    }
    lemma_word_end(src, pos + 1);
    if pos + 2 <= src.len() {
        lemma_find(src, pos + 2, '\n');
    }
}


/// The reserved word that `word` is, if it is one.
pub fn reserved(word: &str) -> (kind: Option<TokenType>)
    ensures
        kind == keyword(word@),
{
    if same_text(word, "and") {
        Some(TokenType::And)
    } else if same_text(word, "class") {
        Some(TokenType::Class)
    } else if same_text(word, "else") {
        Some(TokenType::Else)
    } else if same_text(word, "false") {
        Some(TokenType::False)
    } else if same_text(word, "for") {
        Some(TokenType::For)
    } else if same_text(word, "fun") {
        Some(TokenType::Fun)
    } else if same_text(word, "if") {
        Some(TokenType::If)
    } else if same_text(word, "nil") {
        Some(TokenType::Nil)
    } else if same_text(word, "or") {
        Some(TokenType::Or)
    } else if same_text(word, "print") {
        Some(TokenType::Print)
    } else if same_text(word, "return") {
        Some(TokenType::Return)
    } else if same_text(word, "super") {
        Some(TokenType::Super)
    } else if same_text(word, "this") {
        Some(TokenType::This)
    } else if same_text(word, "true") {
        Some(TokenType::True)
    } else if same_text(word, "var") {
        Some(TokenType::Var)
    } else if same_text(word, "while") {
        Some(TokenType::While)
    } else {
        None
    }
}

/// A scanner over one source text: a window of two cursors that moves from
/// lexeme to lexeme, and the tokens and errors met so far.
pub struct Scanner {
    source: Vec<char>,
    tokens: Vec<Token>,
    start: usize,
    current: usize,
    line: i32,
    errors: Errors,
}

/// What a `Scanner` stands for.
pub struct ScannerView {
    pub source: Seq<char>,
    pub tokens: Seq<TokenView>,
    pub errors: Seq<ErrorView>,
    pub start: int,
    pub current: int,
    pub line: int,
}

impl View for Scanner {
    type V = ScannerView;

    closed spec fn view(&self) -> ScannerView {
        ScannerView {
            source: self.source@,
            tokens: token_views(self.tokens@),
            errors: self.errors@,
            start: self.start as int,
            current: self.current as int,
            line: self.line as int,
        }
    }
}

impl Scanner {
    /// The cursor stands inside the source or at its end, and the line
    /// counter has room for every line feed still to come.
    pub open spec fn well_formed(&self) -> bool {
        &&& 0 <= self@.current <= self@.source.len()
        &&& 1 <= self@.line
        &&& self@.line + newlines(
            self@.source.subrange(self@.current, self@.source.len() as int),
        ) < i32::MAX
    }

    /// A scanner at the beginning of `source`, on line 1.
    pub fn new(source: &[u8]) -> (scanner: Self)
        requires
            valid_utf8(source@),
            countable(decode_utf8(source@)),
        ensures
            scanner.well_formed(),
            scanner@ == (ScannerView {
                source: decode_utf8(source@),
                tokens: seq![],
                errors: seq![],
                start: 0,
                current: 0,
                line: 1,
            }),
    {
        let chars = decode(source);
        assert(chars@.subrange(0, chars@.len() as int) =~= chars@);
        let scanner = Scanner {
            source: chars,
            tokens: Vec::new(),
            start: 0,
            current: 0,
            line: 1,
            errors: Errors::new(),
        };
        assert(scanner@.tokens =~= seq![]);
        scanner
    }

    /// The tokens read so far.
    pub fn tokens(&self) -> (tokens: &Vec<Token>)
        ensures
            token_views(tokens@) == self@.tokens,
    {
        &self.tokens
    }

    /// Reads the source to its end and closes the tokens with the
    /// end-of-input token. Gives the tokens where the source held no error,
    /// else all the errors it held.
    pub fn scan_tokens(&mut self) -> (result: Result<Vec<Token>, Errors>)
        requires
            old(self).well_formed(),
        ensures
            final(self).well_formed(),
            final(self)@.source == old(self)@.source,
            final(self)@.current == old(self)@.source.len(),
            final(self)@.line == scan_from(old(self)@.source, old(self)@.current, old(self)@.line).line,
            final(self)@.tokens == (old(self)@.tokens + scan_from(
                old(self)@.source,
                old(self)@.current,
                old(self)@.line,
            ).tokens).push(end_of_input()),
            final(self)@.errors == old(self)@.errors + scan_from(
                old(self)@.source,
                old(self)@.current,
                old(self)@.line,
            ).errors,
            match result {
                Ok(tokens) => final(self)@.errors.len() == 0 && token_views(tokens@) == final(self)@.tokens,
                Err(errors) => errors@.len() > 0 && errors@ == final(self)@.errors,
            },
    {
        let ghost src = self@.source;
        let ghost first = self@.current;
        let ghost first_line = self@.line;
        let ghost tokens_before = self@.tokens;
        let ghost errors_before = self@.errors;
        while !self.is_at_end()
            invariant
                self.well_formed(),
                self@.source == src,
                first <= self@.current,
                tokens_before + scan_from(src, first, first_line).tokens == self@.tokens + scan_from(
                    src,
                    self@.current,
                    self@.line,
                ).tokens,
                errors_before + scan_from(src, first, first_line).errors == self@.errors
                    + scan_from(src, self@.current, self@.line).errors,
                scan_from(src, first, first_line).line == scan_from(
                    src,
                    self@.current,
                    self@.line,
                ).line,
            decreases src.len() - self@.current,
        {
            // We are at the beginning of the next lexeme.
            self.start = self.current;
            let ghost before = self@;
            proof {
                lemma_lex_advances(src, before.current, before.line);
            }
            if let Err(err) = self.scan_token() {
                self.errors.push(err.clone());
            }
            proof {
                let lexed = lex(src, before.current, before.line);
                let rest = scan_from(src, lexed.next, lexed.line);
                assert(before.tokens + (token_of(lexed) + rest.tokens) =~= (before.tokens
                    + token_of(lexed)) + rest.tokens);
                assert(before.errors + (error_of(lexed) + rest.errors) =~= (before.errors
                    + error_of(lexed)) + rest.errors);
                assert(self@.errors =~= before.errors + error_of(lexed));
            }
        }

        self.tokens.push(Token::new(TokenType::Eof, String::new(), None, 0));
        proof {
            let all = scan_from(src, first, first_line);
            assert(self@.tokens =~= (tokens_before + all.tokens).push(end_of_input()));
            assert(self@.errors =~= errors_before + all.errors);
        }

        if !self.errors.is_empty() {
            return Err(self.errors.clone());
        }
        Ok(clone_tokens(&self.tokens))
    }

    /// Reads the one lexeme at which the cursor stands.
    fn scan_token(&mut self) -> (result: Result<(), Error>)
        requires
            old(self).well_formed(),
            old(self)@.current < old(self)@.source.len(),
            old(self)@.start == old(self)@.current,
        ensures
            final(self).well_formed(),
            final(self)@.source == old(self)@.source,
            final(self)@.errors == old(self)@.errors,
            final(self)@.current == lex(old(self)@.source, old(self)@.current, old(self)@.line).next,
            final(self)@.line == lex(old(self)@.source, old(self)@.current, old(self)@.line).line,
            final(self)@.tokens == old(self)@.tokens + token_of(
                lex(old(self)@.source, old(self)@.current, old(self)@.line),
            ),
            match result {
                Ok(_) => lex(old(self)@.source, old(self)@.current, old(self)@.line).error is None,
                Err(error) => lex(old(self)@.source, old(self)@.current, old(self)@.line).error
                    == Some(error@),
            },
    {
        let ghost src = self@.source;
        let ghost pos = self@.current;
        let c = self.advance();
        match c {
            '(' => self.get_and_add_token(TokenType::LeftParen),
            ')' => self.get_and_add_token(TokenType::RightParen),
            '{' => self.get_and_add_token(TokenType::LeftBrace),
            '}' => self.get_and_add_token(TokenType::RightBrace),
            ',' => self.get_and_add_token(TokenType::Comma),
            '.' => self.get_and_add_token(TokenType::Dot),
            '-' => self.get_and_add_token(TokenType::Minus),
            '+' => self.get_and_add_token(TokenType::Plus),
            ';' => self.get_and_add_token(TokenType::Semicolon),
            ':' => self.get_and_add_token(TokenType::Colon),
            '*' => self.get_and_add_token(TokenType::Star),
            '?' => self.get_and_add_token(TokenType::QuestionMark),
            '!' => {
                if self.match_char('=') {
                    self.get_and_add_token(TokenType::BangEqual)
                } else {
                    self.get_and_add_token(TokenType::Bang)
                }
            },
            '=' => {
                if self.match_char('=') {
                    self.get_and_add_token(TokenType::EqualEqual)
                } else {
                    self.get_and_add_token(TokenType::Equal)
                }
            },
            '<' => {
                if self.match_char('=') {
                    self.get_and_add_token(TokenType::LessEqual)
                } else {
                    self.get_and_add_token(TokenType::Less)
                }
            },
            '>' => {
                if self.match_char('=') {
                    self.get_and_add_token(TokenType::GreaterEqual)
                } else {
                    self.get_and_add_token(TokenType::Greater)
                }
            },
            '/' => {
                if self.match_char('/') {
                    // A comment goes until the end of the line.
                    while self.peek() != '\n' && !self.is_at_end()
                        invariant
                            self.well_formed(),
                            self@.source == src,
                            self@.tokens == old(self)@.tokens,
                            self@.errors == old(self)@.errors,
                            self@.line == old(self)@.line,
                            pos + 2 <= self@.current,
                            find(src, pos + 2, '\n') == find(src, self@.current, '\n'),
                        decreases src.len() - self@.current,
                    {
                        self.advance();
                    }
                    assert(self@.tokens =~= old(self)@.tokens + token_of(lex(src, pos, old(self)@.line)));
                } else {
                    self.get_and_add_token(TokenType::Slash)
                }
            },
            ' ' | '\r' | '\t' => {
                assert(self@.tokens =~= old(self)@.tokens + token_of(lex(src, pos, old(self)@.line)));
            },
            '\n' => {
                self.line = self.line + 1;
                assert(self@.tokens =~= old(self)@.tokens + token_of(lex(src, pos, old(self)@.line)));
            },
            '"' => {
                match self.string() {
                    Ok(token) => self.add_token(token),
                    Err(error) => {
                        assert(self@.tokens =~= old(self)@.tokens + token_of(
                            lex(src, pos, old(self)@.line),
                        ));
                        return Err(error);
                    },
                }
            },
            unknown => {
                if self.is_digit(unknown) {
                    let token = self.number();
                    self.add_token(token);
                    return Ok(());
                } else if self.is_alpha(unknown) {
                    let token = self.identifier();
                    self.add_token(token);
                    return Ok(());
                }
                assert(self@.tokens =~= old(self)@.tokens + token_of(lex(src, pos, old(self)@.line)));
                return Err(Error::UnexpectedChar(unknown, self.line));
            },
        };

        Ok(())
    }

    /// The rest of an identifier or reserved word whose first character
    /// has been read.
    fn identifier(&mut self) -> (token: Token)
        requires
            old(self).well_formed(),
            old(self)@.current == old(self)@.start + 1,
        ensures
            final(self).well_formed(),
            final(self)@ == (ScannerView {
                current: word_end(old(self)@.source, old(self)@.current),
                ..old(self)@
            }),
            Some(token@) == lex_word(old(self)@.source, old(self)@.start, old(self)@.line).token,
    {
        let ghost src = self@.source;
        let ghost from = self@.current;
        while self.is_alphanumeric(self.peek())
            invariant
                self.well_formed(),
                self@ == (ScannerView { current: self@.current, ..old(self)@ }),
                src == self@.source,
                from <= self@.current,
                word_end(src, from) == word_end(src, self@.current),
            decreases src.len() - self@.current,
        {
            self.advance();
        }

        let value = text_between(&self.source, self.start, self.current);
        let token = reserved(value.as_str());

        if let Some(token_type) = token {
            return self.get_token(token_type, None);
        }
        self.get_token(TokenType::Identifier, None)
    }

    fn is_alphanumeric(&self, c: char) -> (yes: bool)
        ensures
            yes == is_alphanumeric(c),
    {
        self.is_alpha(c) || self.is_digit(c)
    }

    fn is_alpha(&self, c: char) -> (yes: bool)
        ensures
            yes == is_alpha(c),
    {
        (c >= 'a' && c <= 'z') || (c >= 'A' && c <= 'Z') || c == '_'
    }

    /// The rest of a numeral whose first digit has been read.
    fn number(&mut self) -> (token: Token)
        requires
            old(self).well_formed(),
            old(self)@.current == old(self)@.start + 1,
            is_digit(old(self)@.source[old(self)@.start]),
        ensures
            final(self).well_formed(),
            final(self)@ == (ScannerView {
                current: numeral_end(old(self)@.source, old(self)@.start),
                ..old(self)@
            }),
            Some(token@) == lex_number(old(self)@.source, old(self)@.start, old(self)@.line).token,
    {
        let ghost src = self@.source;
        let ghost first = self@.start;
        while self.is_digit(self.peek())
            invariant
                self.well_formed(),
                self@ == (ScannerView { current: self@.current, ..old(self)@ }),
                src == self@.source,
                first < self@.current,
                digits_end(src, first) == digits_end(src, self@.current),
            decreases src.len() - self@.current,
        {
            self.advance();
        }

        if self.peek() == '.' && self.is_digit(self.peek_next()) {
            self.advance();

            while self.is_digit(self.peek())
                invariant
                    self.well_formed(),
                    self@ == (ScannerView { current: self@.current, ..old(self)@ }),
                    src == self@.source,
                    digits_end(src, first) + 1 <= self@.current,
                    digits_end(src, digits_end(src, first) + 1) == digits_end(src, self@.current),
                decreases src.len() - self@.current,
            {
                self.advance();
            }
        }
        let value = text_between(&self.source, self.start, self.current);
        self.get_token(TokenType::Number, Some(Literal::Number(value)))
    }

    fn peek_next(&self) -> (c: char)
        requires
            self.well_formed(),
        ensures
            c == if self@.current + 1 < self@.source.len() {
                self@.source[self@.current + 1]
            } else {
                '\0'
            },
    {
        if self.source.len() - self.current <= 1 {
            return '\0';
        }
        self.source[self.current + 1]
    }

    fn is_digit(&self, c: char) -> (yes: bool)
        ensures
            yes == is_digit(c),
    {
        c >= '0' && c <= '9'
    }

    /// The rest of a string literal whose opening quote has been read.
    fn string(&mut self) -> (result: Result<Token, Error>)
        requires
            old(self).well_formed(),
            old(self)@.current == old(self)@.start + 1,
        ensures
            final(self).well_formed(),
            final(self)@ == (ScannerView {
                current: lex_string(old(self)@.source, old(self)@.start, old(self)@.line).next,
                line: lex_string(old(self)@.source, old(self)@.start, old(self)@.line).line,
                ..old(self)@
            }),
            match result {
                Ok(token) => Some(token@) == lex_string(
                    old(self)@.source,
                    old(self)@.start,
                    old(self)@.line,
                ).token,
                Err(error) => Some(error@) == lex_string(
                    old(self)@.source,
                    old(self)@.start,
                    old(self)@.line,
                ).error,
            },
    {
        let ghost src = self@.source;
        let ghost from = self@.current;
        let ghost first_line = self@.line;
        assert(src.subrange(from, from) =~= seq![]);
        // Consume chars until we hit the '"' that ends the string.
        while self.peek() != '"' && !self.is_at_end()
            invariant
                self.well_formed(),
                self@ == (ScannerView { current: self@.current, line: self@.line, ..old(self)@ }),
                src == self@.source,
                0 <= from <= self@.current,
                find(src, from, '"') == find(src, self@.current, '"'),
                self@.line == first_line + newlines(src.subrange(from, self@.current)),
            decreases src.len() - self@.current,
        {
            let ghost at = self@.current;
            if self.advance() == '\n' {
                self.line = self.line + 1;
            }
            assert(src.subrange(from, at + 1).drop_last() =~= src.subrange(from, at));
        }

        if self.is_at_end() {
            return Err(Error::UnterminatedString(self.line));
        }
        self.advance();

        let lexeme = text_between(&self.source, self.start, self.current);
        let value = text_between(&self.source, self.start + 1, self.current - 1);
        Ok(Token::new(TokenType::String, lexeme, Some(Literal::String(value)), self.line))
    }

    /// A token of the given kind over the window.
    fn get_token(&self, token_type: TokenType, literal: Option<Literal>) -> (token: Token)
        requires
            self@.start <= self@.current <= self@.source.len(),
        ensures
            token.token_type == token_type,
            token.lexeme@ == self@.source.subrange(self@.start, self@.current),
            token.literal == literal,
            token.line == self@.line,
    {
        let lexeme = text_between(&self.source, self.start, self.current);
        Token::new(token_type, lexeme, literal, self.line)
    }

    fn get_and_add_token(&mut self, token_type: TokenType)
        requires
            old(self)@.start <= old(self)@.current <= old(self)@.source.len(),
        ensures
            final(self)@ == (ScannerView {
                tokens: old(self)@.tokens.push(
                    TokenView {
                        kind: token_type,
                        lexeme: old(self)@.source.subrange(old(self)@.start, old(self)@.current),
                        literal: None,
                        line: old(self)@.line,
                    },
                ),
                ..old(self)@
            }),
    {
        let token = self.get_token(token_type, None);
        self.add_token(token);
    }

    fn add_token(&mut self, token: Token)
        ensures
            final(self)@ == (ScannerView { tokens: old(self)@.tokens.push(token@), ..old(self)@ }),
    {
        self.tokens.push(token);
        assert(self@.tokens =~= old(self)@.tokens.push(token@));
    }

    /// Reads the character under the cursor and moves the cursor past it.
    fn advance(&mut self) -> (c: char)
        requires
            old(self).well_formed(),
            old(self)@.current < old(self)@.source.len(),
        ensures
            c == old(self)@.source[old(self)@.current],
            final(self)@ == (ScannerView { current: old(self)@.current + 1, ..old(self)@ }),
            final(self).well_formed(),
            c == '\n' ==> final(self)@.line + 1 + newlines(
                final(self)@.source.subrange(final(self)@.current, final(self)@.source.len() as int),
            ) < i32::MAX,
            c == '\n' ==> final(self)@.line + 1 < i32::MAX,
    {
        proof {
            lemma_newlines_from(self@.source, self@.current);
        }
        let end = self.source.len();
        let c = self.source[self.current];
        self.current = self.current + 1;
        c
    }

    fn is_at_end(&self) -> (at_end: bool)
        ensures
            at_end == (self@.current >= self@.source.len()),
    {
        self.current >= self.source.len()
    }

    /// Moves the cursor past the character under it where that is `expected`.
    fn match_char(&mut self, expected: char) -> (matched: bool)
        requires
            old(self).well_formed(),
        ensures
            matched == (old(self)@.current < old(self)@.source.len() && old(self)@.source[old(self)@.current] == expected),
            final(self)@ == (ScannerView {
                current: if matched {
                    old(self)@.current + 1
                } else {
                    old(self)@.current
                },
                ..old(self)@
            }),
            final(self).well_formed(),
    {
        if self.is_at_end() {
            return false;
        }
        proof {
            lemma_newlines_from(self@.source, self@.current);
        }
        let end = self.source.len();
        if self.source[self.current] != expected {
            return false;
        }
        self.current = self.current + 1;
        true
    }

    /// The character under the cursor, or NUL at the end of the source.
    fn peek(&self) -> (c: char)
        ensures
            c == if self@.current < self@.source.len() {
                self@.source[self@.current]
            } else {
                '\0'
            },
    {
        if self.is_at_end() {
            return '\0';
        }
        self.source[self.current]
    }
}

/// How many line feeds the characters hold.
fn count_newlines(chars: &Vec<char>) -> (count: usize)
    ensures
        count == newlines(chars@),
{
    let mut count: usize = 0;
    let mut i: usize = 0;
    assert(chars@.subrange(0, 0) =~= Seq::<char>::empty());
    while i < chars.len()
        invariant
            0 <= i <= chars.len(),
            count == newlines(chars@.subrange(0, i as int)),
            count <= i,
        decreases chars.len() - i,
    {
        if chars[i] == '\n' {
            count += 1;
        }
        i += 1;
        assert(chars@.subrange(0, i as int).drop_last() =~= chars@.subrange(0, i - 1));
    }
    assert(chars@.subrange(0, chars@.len() as int) =~= chars@);
    count
}

/// Whether the bytes are a source that can be scanned: well-formed UTF-8
/// with fewer line feeds than the line counter can count.
pub fn scannable(source: &[u8]) -> (yes: bool)
    ensures
        yes == (valid_utf8(source@) && countable(decode_utf8(source@))),
{
    if !crate::text::is_utf8(source) {
        return false;
    }
    let chars = decode(source);
    count_newlines(&chars) < 0x7fff_fffe
}

/// Scans a whole source text, where the bytes are one that can be scanned.
/// Else there is no outcome.
pub fn try_scan(source: &[u8]) -> (outcome: Option<Result<Vec<Token>, Errors>>)
    ensures
        outcome is Some <==> valid_utf8(source@) && countable(decode_utf8(source@)),
        match outcome {
            Some(Ok(tokens)) => Ok::<Seq<TokenView>, Seq<ErrorView>>(token_views(tokens@))
                == scan_result(decode_utf8(source@)),
            Some(Err(errors)) => Err::<Seq<TokenView>, Seq<ErrorView>>(errors@) == scan_result(
                decode_utf8(source@),
            ),
            None => true,
        },
{
    if scannable(source) {
        Some(scan(source))
    } else {
        None
    }
}

/// Scans a whole source text.
pub fn scan(source: &[u8]) -> (result: Result<Vec<Token>, Errors>)
    requires
        valid_utf8(source@),
        countable(decode_utf8(source@)),
    ensures
        match result {
            Ok(tokens) => Ok::<Seq<TokenView>, Seq<ErrorView>>(token_views(tokens@)) == scan_result(
                decode_utf8(source@),
            ),
            Err(errors) => Err::<Seq<TokenView>, Seq<ErrorView>>(errors@) == scan_result(
                decode_utf8(source@),
            ),
        },
{
    let mut scanner = Scanner::new(source);
    let result = scanner.scan_tokens();
    proof {
        let scanned = scan_from(decode_utf8(source@), 0, 1);
        assert(seq![] + scanned.tokens =~= scanned.tokens);
        assert(seq![] + scanned.errors =~= scanned.errors);
    }
    result
}

/// Where a run of digits ends inside a part of a text: where it ends in
/// the text, or where the part ends, if that comes first.
pub proof fn lemma_digits_end_within(src: Seq<char>, from: int, to: int, pos: int)
    requires
        0 <= from <= pos <= to <= src.len(),
    ensures
        digits_end(src.subrange(from, to), pos - from) == if digits_end(src, pos) <= to {
            digits_end(src, pos) - from
        } else {
            to - from
        },
    decreases to - pos,
{
    lemma_digits_end(src, pos);
    if pos < to && is_digit(src[pos]) {
        lemma_digits_end_within(src, from, to, pos + 1);
        lemma_digits_end(src, pos + 1);
    }
}

/// The number of a numeral, read as a token: its lexeme is the numeral,
/// character by character, and so is its literal.
pub open spec fn number_token(numeral: Seq<char>, line: int) -> TokenView {
    TokenView {
        kind: TokenType::Number,
        lexeme: numeral,
        literal: Some(LiteralView::Number(numeral)),
        line,
    }
}

/// Where a digit stands, a number is read: its lexeme is the part of the
/// source that it was read from, its literal is that same text, and the
/// text has the shape of a numeral.
pub proof fn lemma_number_lexeme(src: Seq<char>, pos: int, line: int)
    requires
        0 <= pos < src.len(),
        is_digit(src[pos]),
    ensures
        lex(src, pos, line).error is None,
        lex(src, pos, line).token == Some(
            number_token(src.subrange(pos, lex(src, pos, line).next), line),
        ),
        is_numeral(src.subrange(pos, lex(src, pos, line).next)),
{
    let whole = digits_end(src, pos);
    let end = numeral_end(src, pos);
    let part = src.subrange(pos, end);
    lemma_digits_end(src, pos);
    if whole + 1 < src.len() && src[whole] == '.' && is_digit(src[whole + 1]) {
        lemma_digits_end(src, whole + 1);
        lemma_digits_end_within(src, pos, end, pos);
        lemma_digits_end_within(src, pos, end, whole + 1);
    } else {
        lemma_digits_end_within(src, pos, end, pos);
    }
}

/// A numeral, scanned by itself, comes out as one token that holds it
/// unchanged, before the closing token.
pub proof fn lemma_numeral_scans(numeral: Seq<char>)
    requires
        is_numeral(numeral),
    ensures
        scan_result(numeral) == Ok::<Seq<TokenView>, Seq<ErrorView>>(
            seq![number_token(numeral, 1), end_of_input()],
        ),
{
    reveal_with_fuel(scan_from, 2);
    assert(numeral.subrange(0, numeral.len() as int) =~= numeral);
    let scanned = scan_from(numeral, 0, 1);
    assert(scanned.tokens =~= seq![number_token(numeral, 1)]);
    assert(scanned.errors =~= seq![]);
    assert(scanned.tokens.push(end_of_input()) =~= seq![number_token(numeral, 1), end_of_input()]);
}

/// Scanning finds an error exactly where it fails: the outcome is the
/// errors where there is at least one, and else the tokens, closed.
pub proof fn lemma_scan_outcome(src: Seq<char>)
    ensures
        scan_result(src) is Err <==> scan_from(src, 0, 1).errors.len() > 0,
        scan_result(src) is Err ==> scan_result(src) == Err::<Seq<TokenView>, Seq<ErrorView>>(
            scan_from(src, 0, 1).errors,
        ),
        scan_result(src) is Ok ==> scan_result(src)->Ok_0.last() == end_of_input(),
{
}

/// The digit for a number below ten.
pub open spec fn digit(value: nat) -> char {
    if value == 0 {
        '0'
    } else if value == 1 {
        '1'
    } else if value == 2 {
        '2'
    } else if value == 3 {
        '3'
    } else if value == 4 {
        '4'
    } else if value == 5 {
        '5'
    } else if value == 6 {
        '6'
    } else if value == 7 {
        '7'
    } else if value == 8 {
        '8'
    } else {
        '9'
    }
}

/// The number below ten that a digit stands for.
pub open spec fn digit_value(c: char) -> nat {
    if c == '1' {
        1
    } else if c == '2' {
        2
    } else if c == '3' {
        3
    } else if c == '4' {
        4
    } else if c == '5' {
        5
    } else if c == '6' {
        6
    } else if c == '7' {
        7
    } else if c == '8' {
        8
    } else if c == '9' {
        9
    } else {
        0
    }
}

/// A whole number, written out in decimal digits.
pub open spec fn decimal(value: nat) -> Seq<char>
    decreases value,
{
    if value < 10 {
        seq![digit(value)]
    } else {
        decimal(value / 10).push(digit(value % 10))
    }
}

/// The whole number that a run of decimal digits denotes.
pub open spec fn whole_value(digits: Seq<char>) -> nat
    decreases digits.len(),
{
    if digits.len() == 0 {
        0
    } else {
        whole_value(digits.drop_last()) * 10 + digit_value(digits.last())
    }
}

/// A whole number, written out, is a run of digits that denotes it.
pub proof fn lemma_decimal(value: nat)
    ensures
        decimal(value).len() > 0,
        forall|i: int| 0 <= i < decimal(value).len() ==> is_digit(#[trigger] decimal(value)[i]),
        whole_value(decimal(value)) == value,
    decreases value,
{
    if value < 10 {
        assert(decimal(value).drop_last() =~= Seq::<char>::empty());
        assert(whole_value(decimal(value).drop_last()) == 0);
    } else {
        lemma_decimal(value / 10);
        assert(decimal(value).drop_last() =~= decimal(value / 10));
    }
}

/// A run of digits, and digits only, ends where the text ends.
pub proof fn lemma_all_digits(s: Seq<char>, pos: int)
    requires
        0 <= pos <= s.len(),
        forall|i: int| 0 <= i < s.len() ==> is_digit(#[trigger] s[i]),
    ensures
        digits_end(s, pos) == s.len(),
    decreases s.len() - pos,
{
    if pos < s.len() {
        lemma_all_digits(s, pos + 1);
    }
}

/// Writing a whole number out and scanning what was written gives the
/// number back: one token, whose lexeme and literal are the digits that
/// were written, and these digits denote the number.
pub proof fn lemma_whole_number_round_trip(value: nat)
    ensures
        is_numeral(decimal(value)),
        scan_result(decimal(value)) == Ok::<Seq<TokenView>, Seq<ErrorView>>(
            seq![number_token(decimal(value), 1), end_of_input()],
        ),
        whole_value(decimal(value)) == value,
{
    lemma_decimal(value);
    lemma_all_digits(decimal(value), 0);
    lemma_numeral_scans(decimal(value));
}

/// The literal of a whole number: its decimal digits.
pub fn whole_literal(value: u64) -> (literal: Literal)
    ensures
        literal@ == LiteralView::Number(decimal(value as nat)),
{
    Literal::Number(whole_numeral(value))
}

/// A whole number, written out in decimal digits.
fn whole_numeral(value: u64) -> (text: String)
    ensures
        text@ == decimal(value as nat),
    decreases value,
{
    let mut text = if value < 10 {
        String::new()
    } else {
        whole_numeral(value / 10)
    };
    let last = value % 10;
    let c = if last == 0 {
        '0'
    } else if last == 1 {
        '1'
    } else if last == 2 {
        '2'
    } else if last == 3 {
        '3'
    } else if last == 4 {
        '4'
    } else if last == 5 {
        '5'
    } else if last == 6 {
        '6'
    } else if last == 7 {
        '7'
    } else if last == 8 {
        '8'
    } else {
        '9'
    };
    crate::text::push_char(&mut text, c);
    assert(text@ =~= decimal(value as nat));
    text
}

/// Where the digits of `chars` from `pos` on end.
fn digits_end_of(chars: &Vec<char>, pos: usize) -> (end: usize)
    requires
        pos <= chars.len(),
    ensures
        end == digits_end(chars@, pos as int),
        pos <= end <= chars.len(),
{
    let mut end = pos;
    while end < chars.len() && chars[end] >= '0' && chars[end] <= '9'
        invariant
            pos <= end <= chars.len(),
            digits_end(chars@, pos as int) == digits_end(chars@, end as int),
        decreases chars.len() - end,
    {
        end += 1;
    }
    end
}

/// The number literal that a text is, where it has the shape of a numeral.
pub fn parse_numeral(text: &str) -> (result: Result<Literal, Error>)
    ensures
        match result {
            Ok(literal) => is_numeral(text@) && literal@ == LiteralView::Number(text@),
            Err(error) => !is_numeral(text@) && error@ == ErrorView::ParseError(text@),
        },
{
    let chars = crate::text::characters(text);
    let count = chars.len();
    let mut shaped = false;
    if count > 0 && chars[0] >= '0' && chars[0] <= '9' {
        let whole = digits_end_of(&chars, 0);
        let end = if count - whole > 1 && chars[whole] == '.' && chars[whole + 1] >= '0' && chars[whole
            + 1] <= '9' {
            digits_end_of(&chars, whole + 1)
        } else {
            whole
        };
        shaped = end == count;
    }
    if shaped {
        Ok(Literal::Number(text.to_owned()))
    } else {
        Err(Error::ParseError(text.to_owned()))
    }
}

} // verus!
