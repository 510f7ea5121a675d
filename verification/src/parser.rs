//! The parser: recursive descent over a sequence of tokens.

use crate::expr::{lemma_stmt_view, stmt_views, Expr, Stmt, StmtView};
use crate::grammar::{
    assignment, at, at_any, block, boundary, branches, condition, declaration, desugar, expect,
    express_statement, expression, for_body, for_condition, for_increment, for_statement,
    if_statement, infix, infix_rest, is_end, is_operator, lemma_boundary, operand, primary,
    print_statement, program, rank, remaining, statement, synchronize, ternary, ternary_rest,
    unary, var_declaration, while_statement, ErrorView, Level, Parsed, Program,
};
use crate::token::{Literal, Token, TokenType};
use vstd::prelude::*;

verus! {

/// What can be wrong with a sequence of tokens.
#[derive(Debug)]
pub enum Error {
    /// The cursor stands behind the last token, at the index given.
    OutOfBounds(usize),
    /// A number or string token that carries no literal.
    EmptyLiteral(Token),
    /// A token with which no expression begins, and its line.
    UnexpectedToken(Token, i32),
    /// A token of another kind than the grammar asks for at its place.
    MismatchedToken { line: i32, expected: TokenType, actual: TokenType, message: String },
    /// After an error, no place was found at which a statement begins.
    SyncBoundaryNotFound,
    /// The `=` behind an expression that cannot be assigned to.
    InvalidAssignmentTarget(Token),
}

impl View for Error {
    type V = ErrorView;

    open spec fn view(&self) -> ErrorView {
        match self {
            Error::OutOfBounds(index) => ErrorView::OutOfBounds(*index as int),
            Error::EmptyLiteral(token) => ErrorView::EmptyLiteral(*token),
            Error::UnexpectedToken(token, line) => ErrorView::UnexpectedToken(*token, *line as int),
            Error::MismatchedToken { line, expected, actual, message } => ErrorView::MismatchedToken {
                line: *line as int,
                expected: *expected,
                actual: *actual,
                message: message@,
            },
            Error::SyncBoundaryNotFound => ErrorView::SyncBoundaryNotFound,
            Error::InvalidAssignmentTarget(token) => ErrorView::InvalidAssignmentTarget(*token),
        }
    }
}

impl Clone for Error {
    fn clone(&self) -> (copy: Self)
        ensures
            copy == *self,
    {
        match self {
            Error::OutOfBounds(index) => Error::OutOfBounds(*index),
            Error::EmptyLiteral(token) => Error::EmptyLiteral(token.clone()),
            Error::UnexpectedToken(token, line) => Error::UnexpectedToken(token.clone(), *line),
            Error::MismatchedToken { line, expected, actual, message } => Error::MismatchedToken {
                line: *line,
                expected: *expected,
                actual: *actual,
                message: message.clone(),
            },
            Error::SyncBoundaryNotFound => Error::SyncBoundaryNotFound,
            Error::InvalidAssignmentTarget(token) => Error::InvalidAssignmentTarget(token.clone()),
        }
    }
}

/// What a sequence of errors stands for.
pub open spec fn error_views(errors: Seq<Error>) -> Seq<ErrorView> {
    errors.map_values(|error: Error| error@)
}

/// Whether a production that was to come to `parsed` from the place
/// `start` has done so: it gave `result` and left the cursor at `end`.
pub open spec fn yields<T>(parsed: Parsed<T>, start: int, result: Result<T, Error>, end: int) -> bool {
    match parsed {
        Parsed::Done(value, more) => result == Ok::<T, Error>(value) && end == start + 1 + more,
        Parsed::Failed(error, used) => result is Err && result->Err_0@ == error && end == start
            + used,
    }
}

/// The same of a production that gives a statement.
pub open spec fn yields_stmt(
    parsed: Parsed<StmtView>,
    start: int,
    result: Result<Stmt, Error>,
    end: int,
) -> bool {
    match parsed {
        Parsed::Done(value, more) => result is Ok && result->Ok_0@ == value && end == start + 1
            + more,
        Parsed::Failed(error, used) => result is Err && result->Err_0@ == error && end == start
            + used,
    }
}

/// What a statement stands for, where there is one.
pub open spec fn option_view(statement: Option<Stmt>) -> Option<StmtView> {
    match statement {
        Some(statement) => Some(statement@),
        None => None,
    }
}

/// The same of a production that gives a sequence of statements.
pub open spec fn yields_stmts(
    parsed: Parsed<Seq<StmtView>>,
    start: int,
    result: Result<Vec<Stmt>, Error>,
    end: int,
) -> bool {
    match parsed {
        Parsed::Done(value, more) => result is Ok && stmt_views(result->Ok_0@) == value && end
            == start + 1 + more,
        Parsed::Failed(error, used) => result is Err && result->Err_0@ == error && end == start
            + used,
    }
}

/// A recursive-descent parser: a sequence of tokens, a cursor into it, and
/// the errors of the declarations that were given up.
#[derive(Debug)]
pub struct Parser {
    tokens: Vec<Token>,
    current: usize,
    errors: Vec<Error>,
}

/// What a `Parser` stands for.
pub struct ParserView {
    pub tokens: Seq<Token>,
    pub current: int,
    pub errors: Seq<ErrorView>,
}

impl View for Parser {
    type V = ParserView;

    closed spec fn view(&self) -> ParserView {
        ParserView {
            tokens: self.tokens@,
            current: self.current as int,
            errors: error_views(self.errors@),
        }
    }
}

impl Parser {
    /// The cursor stands at a token or right behind the last one.
    pub open spec fn well_formed(&self) -> bool {
        0 <= self@.current <= self@.tokens.len() <= usize::MAX
    }

    /// Whether only the cursor has moved since `before`.
    pub open spec fn moved_from(&self, before: &Parser) -> bool {
        self@.tokens == before@.tokens && self@.errors == before@.errors && self.well_formed()
    }

    /// A parser at the first of `tokens`.
    pub fn new(tokens: Vec<Token>) -> (parser: Self)
        ensures
            parser.well_formed(),
            parser@ == (ParserView { tokens: tokens@, current: 0, errors: seq![] }),
    {
        let count = tokens.len();
        let parser = Self { tokens, current: 0, errors: Vec::new() };
        assert(parser@.errors =~= seq![]);
        parser
    }

    /// The error of each declaration that was given up so far.
    pub fn errors(&self) -> (errors: &Vec<Error>)
        ensures
            error_views(errors@) == self@.errors,
    {
        &self.errors
    }

    /// Parses the tokens from the cursor to the end: `declaration* EOF`.
    /// A declaration with an error is given up, its error is noted, and
    /// parsing goes on at the next statement boundary; only where there is
    /// none does parsing fail.
    pub fn parse(&mut self) -> (result: Result<Vec<Stmt>, Error>)
        requires
            old(self).well_formed(),
        ensures
            final(self).well_formed(),
            final(self)@.tokens == old(self)@.tokens,
            final(self)@.errors == program(
                old(self)@.tokens,
                old(self)@.current,
                seq![],
                old(self)@.errors,
            ).errors,
            match result {
                Ok(statements) => program(
                    old(self)@.tokens,
                    old(self)@.current,
                    seq![],
                    old(self)@.errors,
                ).complete && stmt_views(statements@) == program(
                    old(self)@.tokens,
                    old(self)@.current,
                    seq![],
                    old(self)@.errors,
                ).statements,
                Err(error) => !program(
                    old(self)@.tokens,
                    old(self)@.current,
                    seq![],
                    old(self)@.errors,
                ).complete && error@ == ErrorView::SyncBoundaryNotFound,
            },
    {
        let mut statements: Vec<Stmt> = Vec::new();
        let ghost ts = self@.tokens;
        let ghost whole = program(ts, self@.current, seq![], self@.errors);
        assert(stmt_views(statements@) =~= seq![]);
        while !self.is_at_end()
            invariant
                self.well_formed(),
                self@.tokens == ts,
                ts == old(self)@.tokens,
                whole == program(ts, old(self)@.current, seq![], old(self)@.errors),
                whole == program(ts, self@.current, stmt_views(statements@), self@.errors),
            decreases remaining(ts, self@.current),
        {
            statements =
            match self.next_declaration(statements) {
                Ok(longer) => longer,
                Err(failure) => {
                    return Err(failure);
                },
            };
        }
        proof {
            reveal(program);
            assert(whole == (Program {
                statements: stmt_views(statements@),
                errors: self@.errors,
                complete: true,
            }));
        }
        Ok(statements)
    }

    /// Parses one declaration and puts it behind `statements`; where it
    /// holds an error, notes the error and looks for the next boundary.
    fn next_declaration(&mut self, statements: Vec<Stmt>) -> (result: Result<Vec<Stmt>, Error>)
        requires
            old(self).well_formed(),
            !is_end(old(self)@.tokens, old(self)@.current),
        ensures
            final(self).well_formed(),
            final(self)@.tokens == old(self)@.tokens,
            match result {
                Ok(longer) => final(self)@.current > old(self)@.current && program(
                    old(self)@.tokens,
                    old(self)@.current,
                    stmt_views(statements@),
                    old(self)@.errors,
                ) == program(
                    old(self)@.tokens,
                    final(self)@.current,
                    stmt_views(longer@),
                    final(self)@.errors,
                ),
                Err(error) => error@ == ErrorView::SyncBoundaryNotFound && program(
                    old(self)@.tokens,
                    old(self)@.current,
                    stmt_views(statements@),
                    old(self)@.errors,
                ) == (Program {
                    statements: stmt_views(statements@),
                    errors: final(self)@.errors,
                    complete: false,
                }),
            },
    {
        let ghost ts = self@.tokens;
        let ghost pos = self@.current;
        let ghost so_far = stmt_views(statements@);
        let ghost noted = self@.errors;
        let mut statements = statements;
        match self.declaration() {
            Ok(stmt) => {
                statements.push(stmt);
                proof {
                    assert(stmt_views(statements@) =~= so_far.push(stmt@));
                    reveal(program);
                    assert(program(ts, pos, so_far, noted) == program(
                        ts,
                        self@.current as int,
                        so_far.push(stmt@),
                        noted,
                    ));
                }
                Ok(statements)
            },
            Err(error) => {
                let ghost used = (self@.current - pos) as nat;
                match self.recover(error, Ghost(pos), Ghost(used), Ghost(so_far)) {
                    Ok(_) => Ok(statements),
                    Err(failure) => Err(failure),
                }
            },
        }
    }

    /// Notes the error of a declaration that began at `pos` and took `used`
    /// tokens, and looks for the next boundary.
    fn recover(
        &mut self,
        error: Error,
        Ghost(pos): Ghost<int>,
        Ghost(used): Ghost<nat>,
        Ghost(statements): Ghost<Seq<StmtView>>,
    ) -> (result: Result<(), Error>)
        requires
            old(self).well_formed(),
            0 <= pos,
            !is_end(old(self)@.tokens, pos),
            old(self)@.current == pos + used,
            declaration(old(self)@.tokens, pos) == Parsed::<StmtView>::Failed(error@, used),
        ensures
            final(self).well_formed(),
            final(self)@.tokens == old(self)@.tokens,
            final(self)@.errors == old(self)@.errors.push(error@),
            match result {
                Ok(_) => final(self)@.current > pos && program(
                    old(self)@.tokens,
                    pos,
                    statements,
                    old(self)@.errors,
                ) == program(
                    old(self)@.tokens,
                    final(self)@.current,
                    statements,
                    final(self)@.errors,
                ),
                Err(failure) => failure@ == ErrorView::SyncBoundaryNotFound && program(
                    old(self)@.tokens,
                    pos,
                    statements,
                    old(self)@.errors,
                ) == (Program { statements, errors: final(self)@.errors, complete: false }),
            },
    {
        let ghost ts = self@.tokens;
        let ghost errors_so_far = self@.errors;
        let ghost failed_at = self@.current;
        self.errors.push(error);
        assert(self@.errors =~= errors_so_far.push(error@));
        let result = self.synchronize();
        proof {
            lemma_boundary(ts, failed_at + 1);
            reveal(program);
            match result {
                Ok(_) => {
                    assert(program(ts, pos, statements, errors_so_far) == program(
                        ts,
                        self@.current as int,
                        statements,
                        errors_so_far.push(error@),
                    ));
                },
                Err(_) => {
                    assert(program(ts, pos, statements, errors_so_far) == (Program {
                        statements,
                        errors: errors_so_far.push(error@),
                        complete: false,
                    }));
                },
            }
        }
        result
    }

    /// `declaration := "var" IDENTIFIER ("=" expression)? ";" | statement`
    pub fn declaration(&mut self) -> (result: Result<Stmt, Error>)
        requires
            old(self).well_formed(),
        ensures
            final(self).moved_from(old(self)),
            yields_stmt(
                declaration(old(self)@.tokens, old(self)@.current),
                old(self)@.current,
                result,
                final(self)@.current,
            ),
        decreases remaining(old(self)@.tokens, old(self)@.current), 31nat,
    {
        let result = if self.match_type(&TokenType::Var) {
            self.var_declaration()
        } else {
            self.statement()
        };
        proof {
            reveal(declaration);
            assert(yields_stmt(
                declaration(old(self)@.tokens, old(self)@.current),
                old(self)@.current,
                result,
                self@.current,
            ));
        }
        result
    }

    /// `IDENTIFIER ("=" expression)? ";"` behind `var`.
    fn var_declaration(&mut self) -> (result: Result<Stmt, Error>)
        requires
            old(self).well_formed(),
        ensures
            final(self).moved_from(old(self)),
            yields_stmt(
                var_declaration(old(self)@.tokens, old(self)@.current),
                old(self)@.current,
                result,
                final(self)@.current,
            ),
        decreases remaining(old(self)@.tokens, old(self)@.current), 28nat,
    {
        let name = match self.consume(TokenType::Identifier, "Expect variable name.") {
            Ok(name) => name,
            Err(error) => {
                return Err(error);
            },
        };

        let mut initializer: Option<Expr> = None;
        if self.match_type(&TokenType::Equal) {
            match self.expression() {
                Ok(value) => {
                    initializer = Some(value);
                },
                Err(error) => {
                    return Err(error);
                },
            }
        }
        match self.consume(TokenType::Semicolon, "Expect ';' after variable declaration.") {
            Ok(_) => {
                let declared = Stmt::Var(name, initializer);
                proof {
                    lemma_stmt_view(declared);
                }
                Ok(declared)
            },
            Err(error) => Err(error),
        }
    }

    /// `statement := ifStmt | forStmt | printStmt | whileStmt | block | exprStmt`
    pub fn statement(&mut self) -> (result: Result<Stmt, Error>)
        requires
            old(self).well_formed(),
        ensures
            final(self).moved_from(old(self)),
            yields_stmt(
                statement(old(self)@.tokens, old(self)@.current),
                old(self)@.current,
                result,
                final(self)@.current,
            ),
        decreases remaining(old(self)@.tokens, old(self)@.current), 30nat,
    {
        let result = if self.match_type(&TokenType::If) {
            self.if_statement()
        } else if self.match_type(&TokenType::For) {
            self.for_statement()
        } else if self.match_type(&TokenType::Print) {
            self.print_statement()
        } else if self.match_type(&TokenType::While) {
            self.while_statement()
        } else if self.match_type(&TokenType::LeftBrace) {
            match self.block() {
                Ok(statements) => {
                    let block = Stmt::Block(statements);
                    proof {
                        lemma_stmt_view(block);
                    }
                    Ok(block)
                },
                Err(error) => Err(error),
            }
        } else {
            self.express_statement()
        };
        proof {
            reveal(statement);
            assert(yields_stmt(
                statement(old(self)@.tokens, old(self)@.current),
                old(self)@.current,
                result,
                self@.current,
            ));
        }
        result
    }

    /// `"(" (varDecl | exprStmt | ";") expression? ";" expression? ")" statement`
    /// behind `for`. There is no loop of this kind in the tree: what comes
    /// out is the `while` loop that it is short for.
    fn for_statement(&mut self) -> (result: Result<Stmt, Error>)
        requires
            old(self).well_formed(),
        ensures
            final(self).moved_from(old(self)),
            yields_stmt(
                for_statement(old(self)@.tokens, old(self)@.current),
                old(self)@.current,
                result,
                final(self)@.current,
            ),
        decreases remaining(old(self)@.tokens, old(self)@.current), 28nat,
    {
        match self.consume(TokenType::LeftParen, "Expect '(' after 'for'.") {
            Ok(_) => {},
            Err(error) => {
                return Err(error);
            },
        }
        let mut initializer: Option<Stmt> = None;
        if self.match_type(&TokenType::Semicolon) {
        } else if self.match_type(&TokenType::Var) {
            match self.var_declaration() {
                Ok(declared) => {
                    initializer = Some(declared);
                },
                Err(error) => {
                    return Err(error);
                },
            }
        } else {
            match self.express_statement() {
                Ok(evaluated) => {
                    initializer = Some(evaluated);
                },
                Err(error) => {
                    return Err(error);
                },
            }
        }
        self.for_condition(initializer)
    }

    /// `expression? ";" expression? ")" statement`: a `for` loop from its
    /// condition on.
    fn for_condition(&mut self, initializer: Option<Stmt>) -> (result: Result<Stmt, Error>)
        requires
            old(self).well_formed(),
        ensures
            final(self).moved_from(old(self)),
            yields_stmt(
                for_condition(old(self)@.tokens, old(self)@.current, option_view(initializer)),
                old(self)@.current,
                result,
                final(self)@.current,
            ),
        decreases remaining(old(self)@.tokens, old(self)@.current), 33nat,
    {
        let mut condition: Option<Expr> = None;
        if !self.check(&TokenType::Semicolon) {
            match self.expression() {
                Ok(value) => {
                    condition = Some(value);
                },
                Err(error) => {
                    return Err(error);
                },
            }
        }
        match self.consume(TokenType::Semicolon, "Expect ';' after loop condition.") {
            Ok(_) => {},
            Err(error) => {
                return Err(error);
            },
        }
        self.for_increment(initializer, condition)
    }

    /// `expression? ")" statement`: a `for` loop from its increment on.
    fn for_increment(&mut self, initializer: Option<Stmt>, condition: Option<Expr>) -> (result:
        Result<Stmt, Error>)
        requires
            old(self).well_formed(),
        ensures
            final(self).moved_from(old(self)),
            yields_stmt(
                for_increment(
                    old(self)@.tokens,
                    old(self)@.current,
                    option_view(initializer),
                    condition,
                ),
                old(self)@.current,
                result,
                final(self)@.current,
            ),
        decreases remaining(old(self)@.tokens, old(self)@.current), 33nat,
    {
        let mut increment: Option<Expr> = None;
        if !self.check(&TokenType::RightParen) {
            match self.expression() {
                Ok(value) => {
                    increment = Some(value);
                },
                Err(error) => {
                    return Err(error);
                },
            }
        }
        match self.consume(TokenType::RightParen, "Expect ')' after for clauses.") {
            Ok(_) => {},
            Err(error) => {
                return Err(error);
            },
        }
        self.for_body(initializer, condition, increment)
    }

    /// The body of a `for` loop, and the loop as the statements that it is
    /// short for.
    fn for_body(
        &mut self,
        initializer: Option<Stmt>,
        condition: Option<Expr>,
        increment: Option<Expr>,
    ) -> (result: Result<Stmt, Error>)
        requires
            old(self).well_formed(),
        ensures
            final(self).moved_from(old(self)),
            yields_stmt(
                for_body(
                    old(self)@.tokens,
                    old(self)@.current,
                    option_view(initializer),
                    condition,
                    increment,
                ),
                old(self)@.current,
                result,
                final(self)@.current,
            ),
        decreases remaining(old(self)@.tokens, old(self)@.current), 33nat,
    {
        match self.statement() {
            Ok(body) => Ok(Self::desugar(initializer, condition, increment, body)),
            Err(error) => Err(error),
        }
    }

    /// What a `for` loop is short for.
    fn desugar(
        initializer: Option<Stmt>,
        condition: Option<Expr>,
        increment: Option<Expr>,
        body: Stmt,
    ) -> (looped: Stmt)
        ensures
            looped@ == desugar(option_view(initializer), condition, increment, body@),
    {
        let mut body = body;
        let ghost inner = body@;
        if let Some(increment) = increment {
            let step = Stmt::Expression(increment);
            proof {
                lemma_stmt_view(step);
            }
            let parts = vec![body, step];
            assert(stmt_views(parts@) =~= seq![inner, StmtView::Expression(increment)]);
            body = Stmt::Block(parts);
            proof {
                lemma_stmt_view(body);
            }
        }
        body =
        Stmt::While {
            condition: match condition {
                Some(condition) => condition,
                None => Expr::Literal(Literal::True),
            },
            body: Box::new(body),
        };
        proof {
            lemma_stmt_view(body);
        }
        if let Some(initializer) = initializer {
            let ghost looped = body@;
            let parts = vec![initializer, body];
            assert(stmt_views(parts@) =~= seq![initializer@, looped]);
            body = Stmt::Block(parts);
            proof {
                lemma_stmt_view(body);
            }
        }
        body
    }

    /// `"(" expression ")"`, the condition of a statement. The messages are
    /// for a missing `(` and a missing `)`.
    fn condition(&mut self, opening: &str, closing: &str) -> (result: Result<Expr, Error>)
        requires
            old(self).well_formed(),
        ensures
            final(self).moved_from(old(self)),
            yields(
                condition(old(self)@.tokens, old(self)@.current, opening@, closing@),
                old(self)@.current,
                result,
                final(self)@.current,
            ),
        decreases remaining(old(self)@.tokens, old(self)@.current), 28nat,
    {
        match self.consume(TokenType::LeftParen, opening) {
            Ok(_) => {},
            Err(error) => {
                return Err(error);
            },
        }
        let condition = match self.expression() {
            Ok(condition) => condition,
            Err(error) => {
                return Err(error);
            },
        };
        match self.consume(TokenType::RightParen, closing) {
            Ok(_) => Ok(condition),
            Err(error) => Err(error),
        }
    }

    /// `"(" expression ")" statement` behind `while`.
    fn while_statement(&mut self) -> (result: Result<Stmt, Error>)
        requires
            old(self).well_formed(),
        ensures
            final(self).moved_from(old(self)),
            yields_stmt(
                while_statement(old(self)@.tokens, old(self)@.current),
                old(self)@.current,
                result,
                final(self)@.current,
            ),
        decreases remaining(old(self)@.tokens, old(self)@.current), 29nat,
    {
        let condition =
            match self.condition("Expect '(' after 'while'.", "Expect ')' after condition.") {
            Ok(condition) => condition,
            Err(error) => {
                return Err(error);
            },
        };
        let body = match self.statement() {
            Ok(body) => body,
            Err(error) => {
                return Err(error);
            },
        };
        let looped = Stmt::While { condition, body: Box::new(body) };
        proof {
            lemma_stmt_view(looped);
        }
        Ok(looped)
    }

    /// `"(" expression ")" statement ("else" statement)?` behind `if`.
    fn if_statement(&mut self) -> (result: Result<Stmt, Error>)
        requires
            old(self).well_formed(),
        ensures
            final(self).moved_from(old(self)),
            yields_stmt(
                if_statement(old(self)@.tokens, old(self)@.current),
                old(self)@.current,
                result,
                final(self)@.current,
            ),
        decreases remaining(old(self)@.tokens, old(self)@.current), 29nat,
    {
        let condition =
            match self.condition("Expect '(' after 'if'.", "Expect ')' after if condition.") {
            Ok(condition) => condition,
            Err(error) => {
                return Err(error);
            },
        };
        self.branches(condition)
    }

    /// `statement ("else" statement)?`, the branches of an `if` with the
    /// given condition.
    fn branches(&mut self, condition: Expr) -> (result: Result<Stmt, Error>)
        requires
            old(self).well_formed(),
        ensures
            final(self).moved_from(old(self)),
            yields_stmt(
                branches(old(self)@.tokens, old(self)@.current, condition),
                old(self)@.current,
                result,
                final(self)@.current,
            ),
        decreases remaining(old(self)@.tokens, old(self)@.current), 33nat,
    {
        let then_branch = match self.statement() {
            Ok(branch) => branch,
            Err(error) => {
                return Err(error);
            },
        };
        let else_branch = if self.match_type(&TokenType::Else) {
            match self.statement() {
                Ok(branch) => Some(Box::new(branch)),
                Err(error) => {
                    return Err(error);
                },
            }
        } else {
            None
        };
        let branching = Stmt::If { condition, then_branch: Box::new(then_branch), else_branch };
        proof {
            lemma_stmt_view(branching);
        }
        Ok(branching)
    }

    /// `declaration* "}"` behind `{`.
    fn block(&mut self) -> (result: Result<Vec<Stmt>, Error>)
        requires
            old(self).well_formed(),
        ensures
            final(self).moved_from(old(self)),
            yields_stmts(
                block(old(self)@.tokens, old(self)@.current, 0, seq![]),
                old(self)@.current,
                result,
                final(self)@.current,
            ),
        decreases remaining(old(self)@.tokens, old(self)@.current), 32nat,
    {
        let mut statements: Vec<Stmt> = Vec::new();
        let ghost ts = self@.tokens;
        let ghost pos = self@.current;
        assert(stmt_views(statements@) =~= seq![]);

        while !self.check(&TokenType::RightBrace) && !self.is_at_end()
            invariant
                self.moved_from(old(self)),
                ts == self@.tokens,
                pos == old(self)@.current,
                pos <= self@.current,
                block(ts, pos, 0, seq![]) == block(
                    ts,
                    pos,
                    (self@.current - pos) as nat,
                    stmt_views(statements@),
                ),
            decreases remaining(ts, self@.current),
        {
            let ghost so_far = stmt_views(statements@);
            match self.declaration() {
                Ok(stmt) => {
                    statements.push(stmt);
                    assert(stmt_views(statements@) =~= so_far.push(stmt@));
                },
                Err(error) => {
                    return Err(error);
                },
            }
        }
        match self.consume(TokenType::RightBrace, "Expect '}' after block.") {
            Ok(_) => Ok(statements),
            Err(error) => Err(error),
        }
    }

    /// `expression ";"` behind `print`.
    fn print_statement(&mut self) -> (result: Result<Stmt, Error>)
        requires
            old(self).well_formed(),
        ensures
            final(self).moved_from(old(self)),
            yields_stmt(
                print_statement(old(self)@.tokens, old(self)@.current),
                old(self)@.current,
                result,
                final(self)@.current,
            ),
        decreases remaining(old(self)@.tokens, old(self)@.current), 28nat,
    {
        let value = match self.expression() {
            Ok(value) => value,
            Err(error) => {
                return Err(error);
            },
        };
        match self.consume(TokenType::Semicolon, "Expect ';' after value.") {
            Ok(_) => {
                let print = Stmt::Print(value);
                proof {
                    lemma_stmt_view(print);
                }
                Ok(print)
            },
            Err(error) => Err(error),
        }
    }

    /// `expression ";"`
    fn express_statement(&mut self) -> (result: Result<Stmt, Error>)
        requires
            old(self).well_formed(),
        ensures
            final(self).moved_from(old(self)),
            yields_stmt(
                express_statement(old(self)@.tokens, old(self)@.current),
                old(self)@.current,
                result,
                final(self)@.current,
            ),
        decreases remaining(old(self)@.tokens, old(self)@.current), 28nat,
    {
        let value = match self.expression() {
            Ok(value) => value,
            Err(error) => {
                return Err(error);
            },
        };
        match self.consume(TokenType::Semicolon, "Expect ';' after value.") {
            Ok(_) => {
                let evaluate = Stmt::Expression(value);
                proof {
                    lemma_stmt_view(evaluate);
                }
                Ok(evaluate)
            },
            Err(error) => Err(error),
        }
    }

    /// `expression := assignment`
    pub fn expression(&mut self) -> (result: Result<Expr, Error>)
        requires
            old(self).well_formed(),
        ensures
            final(self).moved_from(old(self)),
            yields(
                expression(old(self)@.tokens, old(self)@.current),
                old(self)@.current,
                result,
                final(self)@.current,
            ),
        decreases remaining(old(self)@.tokens, old(self)@.current), 27nat,
    {
        let result = self.assignment();
        proof {
            reveal(expression);
            assert(yields(
                expression(old(self)@.tokens, old(self)@.current),
                old(self)@.current,
                result,
                self@.current,
            ));
        }
        result
    }

    /// `assignment := IDENTIFIER "=" assignment | logic_or`
    pub fn assignment(&mut self) -> (result: Result<Expr, Error>)
        requires
            old(self).well_formed(),
        ensures
            final(self).moved_from(old(self)),
            yields(
                assignment(old(self)@.tokens, old(self)@.current),
                old(self)@.current,
                result,
                final(self)@.current,
            ),
        decreases remaining(old(self)@.tokens, old(self)@.current), 26nat,
    {
        let expr = match self.logic_or() {
            Ok(expr) => expr,
            Err(error) => {
                return Err(error);
            },
        };
        if self.match_type(&TokenType::Equal) {
            let equals = self.previous().clone();
            let value = match self.assignment() {
                Ok(value) => value,
                Err(error) => {
                    return Err(error);
                },
            };
            if let Expr::Variable(variable) = expr {
                return Ok(Expr::Assign(variable, Box::new(value)));
            }
            return Err(Error::InvalidAssignmentTarget(equals));
        }
        Ok(expr)
    }

    /// `logic_or := logic_and ("or" logic_and)*`
    pub fn logic_or(&mut self) -> (result: Result<Expr, Error>)
        requires
            old(self).well_formed(),
        ensures
            final(self).moved_from(old(self)),
            yields(
                infix(old(self)@.tokens, old(self)@.current, Level::Or),
                old(self)@.current,
                result,
                final(self)@.current,
            ),
        decreases remaining(old(self)@.tokens, old(self)@.current), 25nat,
    {
        self.infix(Level::Or)
    }

    /// `logic_and := ternary ("and" ternary)*`
    pub fn logic_and(&mut self) -> (result: Result<Expr, Error>)
        requires
            old(self).well_formed(),
        ensures
            final(self).moved_from(old(self)),
            yields(
                infix(old(self)@.tokens, old(self)@.current, Level::And),
                old(self)@.current,
                result,
                final(self)@.current,
            ),
        decreases remaining(old(self)@.tokens, old(self)@.current), 21nat,
    {
        self.infix(Level::And)
    }

    /// `ternary := equality ("?" equality ":" equality)*`
    pub fn ternary(&mut self) -> (result: Result<Expr, Error>)
        requires
            old(self).well_formed(),
        ensures
            final(self).moved_from(old(self)),
            yields(
                ternary(old(self)@.tokens, old(self)@.current),
                old(self)@.current,
                result,
                final(self)@.current,
            ),
        decreases remaining(old(self)@.tokens, old(self)@.current), 18nat,
    {
        let ghost ts = self@.tokens;
        let ghost pos = self@.current;
        let mut expr = match self.equality() {
            Ok(expr) => expr,
            Err(error) => {
                return Err(error);
            },
        };
        while self.match_type(&TokenType::QuestionMark)
            invariant
                self.moved_from(old(self)),
                ts == self@.tokens,
                pos == old(self)@.current,
                pos < self@.current,
                ternary(ts, pos) == ternary_rest(ts, pos, expr, (self@.current - pos - 1) as nat),
            ensures
                self.moved_from(old(self)),
                yields(ternary(ts, pos), pos, Ok::<Expr, Error>(expr), self@.current as int),
            decreases remaining(ts, self@.current),
        {
            let inner_true = match self.equality() {
                Ok(inner) => inner,
                Err(error) => {
                    return Err(error);
                },
            };
            match self.consume(TokenType::Colon, "Expect ':' after expression") {
                Ok(_) => {},
                Err(error) => {
                    return Err(error);
                },
            }
            let inner_false = match self.equality() {
                Ok(inner) => inner,
                Err(error) => {
                    return Err(error);
                },
            };
            expr = Expr::Condition(Box::new(expr), Box::new(inner_true), Box::new(inner_false));
        }
        Ok(expr)
    }

    /// `equality := comparison (("!=" | "==") comparison)*`
    pub fn equality(&mut self) -> (result: Result<Expr, Error>)
        requires
            old(self).well_formed(),
        ensures
            final(self).moved_from(old(self)),
            yields(
                infix(old(self)@.tokens, old(self)@.current, Level::Equality),
                old(self)@.current,
                result,
                final(self)@.current,
            ),
        decreases remaining(old(self)@.tokens, old(self)@.current), 17nat,
    {
        self.infix(Level::Equality)
    }

    /// `comparison := term ((">" | ">=" | "<" | "<=") term)*`
    pub fn comparison(&mut self) -> (result: Result<Expr, Error>)
        requires
            old(self).well_formed(),
        ensures
            final(self).moved_from(old(self)),
            yields(
                infix(old(self)@.tokens, old(self)@.current, Level::Comparison),
                old(self)@.current,
                result,
                final(self)@.current,
            ),
        decreases remaining(old(self)@.tokens, old(self)@.current), 13nat,
    {
        self.infix(Level::Comparison)
    }

    /// `term := factor (("-" | "+") factor)*`
    pub fn term(&mut self) -> (result: Result<Expr, Error>)
        requires
            old(self).well_formed(),
        ensures
            final(self).moved_from(old(self)),
            yields(
                infix(old(self)@.tokens, old(self)@.current, Level::Term),
                old(self)@.current,
                result,
                final(self)@.current,
            ),
        decreases remaining(old(self)@.tokens, old(self)@.current), 9nat,
    {
        self.infix(Level::Term)
    }

    /// `factor := unary (("/" | "*") unary)*`
    pub fn factor(&mut self) -> (result: Result<Expr, Error>)
        requires
            old(self).well_formed(),
        ensures
            final(self).moved_from(old(self)),
            yields(
                infix(old(self)@.tokens, old(self)@.current, Level::Factor),
                old(self)@.current,
                result,
                final(self)@.current,
            ),
        decreases remaining(old(self)@.tokens, old(self)@.current), 5nat,
    {
        self.infix(Level::Factor)
    }

    /// One operand of an operator of the level: an expression of the next
    /// tighter level.
    fn operand(&mut self, level: Level) -> (result: Result<Expr, Error>)
        requires
            old(self).well_formed(),
        ensures
            final(self).moved_from(old(self)),
            yields(
                operand(old(self)@.tokens, old(self)@.current, level),
                old(self)@.current,
                result,
                final(self)@.current,
            ),
        decreases remaining(old(self)@.tokens, old(self)@.current), rank(level) - 1,
    {
        match level {
            Level::Or => self.logic_and(),
            Level::And => self.ternary(),
            Level::Equality => self.comparison(),
            Level::Comparison => self.term(),
            Level::Term => self.factor(),
            Level::Factor => self.unary(),
        }
    }

    /// The operators of a level.
    fn operators(level: Level) -> (kinds: Vec<TokenType>)
        ensures
            forall|kind: TokenType| is_operator(level, kind) <==> kinds@.contains(kind),
    {
        let kinds = match level {
            Level::Or => vec![TokenType::Or],
            Level::And => vec![TokenType::And],
            Level::Equality => vec![TokenType::BangEqual, TokenType::EqualEqual],
            Level::Comparison => vec![
                TokenType::LessEqual,
                TokenType::Less,
                TokenType::Greater,
                TokenType::GreaterEqual,
            ],
            Level::Term => vec![TokenType::Minus, TokenType::Plus],
            Level::Factor => vec![TokenType::Slash, TokenType::Star],
        };
        assert forall|kind: TokenType| is_operator(level, kind) implies kinds@.contains(kind) by {
            if kinds@.len() > 0 && kind == kinds@[0] {
            } else if kinds@.len() > 1 && kind == kinds@[1] {
            } else if kinds@.len() > 2 && kind == kinds@[2] {
            } else if kinds@.len() > 3 && kind == kinds@[3] {
            }
        }
        kinds
    }

    /// One level of operators between two operands: an operand, and then,
    /// as long as an operator of the level follows, that operator and a
    /// further operand, folded into what stands to the left.
    fn infix(&mut self, level: Level) -> (result: Result<Expr, Error>)
        requires
            old(self).well_formed(),
        ensures
            final(self).moved_from(old(self)),
            yields(
                infix(old(self)@.tokens, old(self)@.current, level),
                old(self)@.current,
                result,
                final(self)@.current,
            ),
        decreases remaining(old(self)@.tokens, old(self)@.current), rank(level),
    {
        let ghost ts = self@.tokens;
        let ghost pos = self@.current;
        let mut expr = match self.operand(level) {
            Ok(expr) => expr,
            Err(error) => {
                return Err(error);
            },
        };
        while self.match_types(Self::operators(level))
            invariant
                self.moved_from(old(self)),
                ts == self@.tokens,
                pos == old(self)@.current,
                pos < self@.current,
                infix(ts, pos, level) == infix_rest(
                    ts,
                    pos,
                    level,
                    expr,
                    (self@.current - pos - 1) as nat,
                ),
            ensures
                self.moved_from(old(self)),
                yields(infix(ts, pos, level), pos, Ok::<Expr, Error>(expr), self@.current as int),
            decreases remaining(ts, self@.current),
        {
            let operator = self.previous().clone();
            let right = match self.operand(level) {
                Ok(right) => right,
                Err(error) => {
                    return Err(error);
                },
            };
            expr =
            match level {
                Level::Or | Level::And => Expr::Logical {
                    left: Box::new(expr),
                    operator,
                    right: Box::new(right),
                },
                _ => Expr::Binary(Box::new(expr), operator, Box::new(right)),
            };
        }
        Ok(expr)
    }

    /// `unary := ("!" | "-") unary | primary`
    pub fn unary(&mut self) -> (result: Result<Expr, Error>)
        requires
            old(self).well_formed(),
        ensures
            final(self).moved_from(old(self)),
            yields(
                unary(old(self)@.tokens, old(self)@.current),
                old(self)@.current,
                result,
                final(self)@.current,
            ),
        decreases remaining(old(self)@.tokens, old(self)@.current), 1nat,
    {
        if self.match_types(vec![TokenType::Bang, TokenType::Minus]) {
            let operator = self.previous().clone();
            return match self.unary() {
                Ok(right) => Ok(Expr::Unary(operator, Box::new(right))),
                Err(error) => Err(error),
            };
        }
        self.primary()
    }

    /// `primary := NUMBER | STRING | "true" | "false" | "nil" | IDENTIFIER | "(" expression ")"`
    pub fn primary(&mut self) -> (result: Result<Expr, Error>)
        requires
            old(self).well_formed(),
        ensures
            final(self).moved_from(old(self)),
            yields(
                primary(old(self)@.tokens, old(self)@.current),
                old(self)@.current,
                result,
                final(self)@.current,
            ),
        decreases remaining(old(self)@.tokens, old(self)@.current), 0nat,
    {
        if self.match_types(vec![TokenType::False, TokenType::True, TokenType::Nil]) {
            let literal = self.previous();
            return Ok(Expr::Literal(Literal::from(literal.token_type())));
        }
        if self.match_types(vec![TokenType::Number, TokenType::String]) {
            let token = self.previous();
            return match token.literal() {
                Some(literal) => Ok(Expr::Literal(literal)),
                None => Err(Error::EmptyLiteral(token.clone())),
            };
        }
        if self.match_type(&TokenType::Identifier) {
            return Ok(Expr::Variable(self.previous().clone()));
        }
        if self.match_types(vec![TokenType::LeftParen]) {
            let expr = match self.expression() {
                Ok(expr) => expr,
                Err(error) => {
                    return Err(error);
                },
            };
            return match self.consume(TokenType::RightParen, "Expect ')' after expression.") {
                Ok(_) => Ok(Expr::Grouping(Box::new(expr))),
                Err(error) => Err(error),
            };
        }
        match self.peek() {
            Ok(token) => Err(Error::UnexpectedToken(token.clone(), *token.line())),
            Err(error) => Err(error),
        }
    }

    /// Moves the cursor past the token under it where that is of one of
    /// the given kinds.
    fn match_types(&mut self, types: Vec<TokenType>) -> (matched: bool)
        requires
            old(self).well_formed(),
        ensures
            final(self).moved_from(old(self)),
            matched == at_any(old(self)@.tokens, old(self)@.current, types@),
            final(self)@.current == old(self)@.current + if matched {
                1int
            } else {
                0int
            },
    {
        let mut i: usize = 0;
        while i < types.len()
            invariant
                0 <= i <= types.len(),
                *self == *old(self),
                self.well_formed(),
                forall|k: int| 0 <= k < i ==> !at(self@.tokens, self@.current, #[trigger] types@[k]),
            decreases types.len() - i,
        {
            if self.check(&types[i]) {
                self.advance();
                return true;
            }
            i += 1;
        }
        false
    }

    /// Moves the cursor past the token under it where that is of the given
    /// kind.
    fn match_type(&mut self, token_type: &TokenType) -> (matched: bool)
        requires
            old(self).well_formed(),
        ensures
            final(self).moved_from(old(self)),
            matched == at(old(self)@.tokens, old(self)@.current, *token_type),
            final(self)@.current == old(self)@.current + if matched {
                1int
            } else {
                0int
            },
    {
        if self.check(token_type) {
            self.advance();
            return true;
        }
        false
    }

    /// Whether the token under the cursor is of the given kind.
    fn check(&self, token_type: &TokenType) -> (found: bool)
        requires
            self.well_formed(),
        ensures
            found == at(self@.tokens, self@.current, *token_type),
    {
        if self.is_at_end() {
            return false;
        }
        match self.peek() {
            Ok(token) => *token.token_type() == *token_type,
            Err(_) => false,
        }
    }

    /// Moves the cursor to the next token, unless it stands at the end.
    fn advance(&mut self)
        requires
            old(self).well_formed(),
        ensures
            final(self).moved_from(old(self)),
            final(self)@.current == old(self)@.current + if is_end(
                old(self)@.tokens,
                old(self)@.current,
            ) {
                0int
            } else {
                1int
            },
    {
        if !self.is_at_end() {
            self.current = self.current + 1
        }
    }

    fn is_at_end(&self) -> (at_end: bool)
        requires
            self.well_formed(),
        ensures
            at_end == is_end(self@.tokens, self@.current),
    {
        if let Ok(value) = self.peek() {
            return *value.token_type() == TokenType::Eof;
        }
        // With no token under the cursor, we are at the end.

        true
    }

    /// The token under the cursor.
    fn peek(&self) -> (result: Result<&Token, Error>)
        requires
            self.well_formed(),
        ensures
            match result {
                Ok(token) => self@.current < self@.tokens.len() && *token
                    == self@.tokens[self@.current],
                Err(error) => self@.current >= self@.tokens.len() && error@
                    == ErrorView::OutOfBounds(self@.current),
            },
    {
        if self.current < self.tokens.len() {
            Ok(&self.tokens[self.current])
        } else {
            Err(Error::OutOfBounds(self.current))
        }
    }

    /// The token before the cursor.
    fn previous(&self) -> (token: &Token)
        requires
            self.well_formed(),
            1 <= self@.current,
        ensures
            *token == self@.tokens[self@.current - 1],
    {
        &self.tokens[self.current - 1]
    }

    /// Moves the cursor past the token under it, which is to be of the
    /// given kind; else the error says what was expected.
    fn consume(&mut self, token_type: TokenType, error_message: &str) -> (result: Result<
        Token,
        Error,
    >)
        requires
            old(self).well_formed(),
        ensures
            final(self).moved_from(old(self)),
            yields(
                expect(old(self)@.tokens, old(self)@.current, token_type, error_message@),
                old(self)@.current,
                result,
                final(self)@.current,
            ),
    {
        if self.check(&token_type) {
            self.advance();
            return Ok(self.previous().clone());
        }
        match self.peek() {
            Ok(actual) => Err(
                Error::MismatchedToken {
                    actual: *actual.token_type(),
                    expected: token_type,
                    line: *actual.line(),
                    message: error_message.to_owned(),
                },
            ),
            Err(error) => Err(error),
        }
    }

    /// After an error: gives up the tokens up to the next statement
    /// boundary, which is behind a semicolon or before a keyword that
    /// begins a statement. The token under the cursor is given up in any
    /// case; the place behind a semicolon is a boundary also where it is
    /// the end.
    pub fn synchronize(&mut self) -> (result: Result<(), Error>)
        requires
            old(self).well_formed(),
        ensures
            final(self).moved_from(old(self)),
            match result {
                Ok(_) => synchronize(old(self)@.tokens, old(self)@.current) == Some(
                    final(self)@.current,
                ),
                Err(error) => synchronize(old(self)@.tokens, old(self)@.current) is None && error@
                    == ErrorView::SyncBoundaryNotFound,
            },
    {
        let ghost ts = self@.tokens;
        let ghost pos = self@.current;
        if self.is_at_end() {
            return Err(Error::SyncBoundaryNotFound);
        }
        self.advance();
        loop
            invariant
                self.moved_from(old(self)),
                ts == self@.tokens,
                pos == old(self)@.current,
                !is_end(ts, pos),
                1 <= self@.current,
                boundary(ts, pos + 1) == boundary(ts, self@.current),
            decreases remaining(ts, self@.current),
        {
            if *self.previous().token_type() == TokenType::Semicolon {
                return Ok(());
            }
            if self.is_at_end() {
                return Err(Error::SyncBoundaryNotFound);
            }
            match self.tokens[self.current].token_type {
                TokenType::Class
                | TokenType::Fun
                | TokenType::Var
                | TokenType::For
                | TokenType::If
                | TokenType::While
                | TokenType::Print
                | TokenType::Return => {
                    return Ok(());
                },
                _ => (),
            }
            self.advance();
        }
    }
}

} // verus!
