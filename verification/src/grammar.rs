//! The grammar of the language: what each production makes of a sequence of
//! tokens.

use crate::expr::{Expr, StmtView};
use crate::token::{Literal, Token, TokenType};
use vstd::prelude::*;

verus! {

/// What can be wrong with a sequence of tokens.
pub enum ErrorView {
    /// The cursor stands behind the last token, at the index given.
    OutOfBounds(int),
    /// A number or string token that carries no literal.
    EmptyLiteral(Token),
    /// A token with which no expression begins, and its line.
    UnexpectedToken(Token, int),
    /// A token of another kind than the grammar asks for at its place.
    MismatchedToken { line: int, expected: TokenType, actual: TokenType, message: Seq<char> },
    /// After an error, no place was found at which a statement begins.
    SyncBoundaryNotFound,
    /// The `=` behind an expression that cannot be assigned to.
    InvalidAssignmentTarget(Token),
}

/// What one production makes of the tokens from some place on.
///
/// A production that succeeds has taken at least one token: `Done` holds
/// what it recognised and how many tokens it took beyond the first.
/// `Failed` holds the error and how many tokens had been taken when it
/// arose.
pub enum Parsed<T> {
    Done(T, nat),
    Failed(ErrorView, nat),
}

/// The outcome `parsed`, of a production that began `by` tokens earlier.
pub open spec fn after<T>(by: nat, parsed: Parsed<T>) -> Parsed<T> {
    match parsed {
        Parsed::Done(value, more) => Parsed::Done(value, more + by),
        Parsed::Failed(error, used) => Parsed::Failed(error, used + by),
    }
}

/// How many tokens stand at `pos` and behind it.
pub open spec fn remaining(ts: Seq<Token>, pos: int) -> nat {
    if pos < ts.len() {
        (ts.len() - pos) as nat
    } else {
        0
    }
}

/// Whether nothing is left to parse at `pos`: the tokens are used up, or
/// the end-of-input token stands there.
pub open spec fn is_end(ts: Seq<Token>, pos: int) -> bool {
    pos >= ts.len() || ts[pos].token_type == TokenType::Eof
}

/// Whether a token of the given kind stands at `pos`, short of the end.
pub open spec fn at(ts: Seq<Token>, pos: int, kind: TokenType) -> bool {
    0 <= pos < ts.len() && ts[pos].token_type != TokenType::Eof && ts[pos].token_type == kind
}

/// Whether a token of one of the given kinds stands at `pos`, short of the end.
pub open spec fn at_any(ts: Seq<Token>, pos: int, kinds: Seq<TokenType>) -> bool {
    exists|i: int| 0 <= i < kinds.len() && at(ts, pos, #[trigger] kinds[i])
}

/// The token of the given kind at `pos`; where another one stands there,
/// the mismatch, with the message.
pub open spec fn expect(ts: Seq<Token>, pos: int, kind: TokenType, message: Seq<char>) -> Parsed<
    Token,
> {
    if at(ts, pos, kind) {
        Parsed::Done(ts[pos], 0)
    } else if 0 <= pos < ts.len() {
        Parsed::Failed(
            ErrorView::MismatchedToken {
                line: ts[pos].line as int,
                expected: kind,
                actual: ts[pos].token_type,
                message,
            },
            0,
        )
    } else {
        Parsed::Failed(ErrorView::OutOfBounds(pos), 0)
    }
}

/// `value`, once the token of the given kind has been found `used` tokens
/// behind `pos`.
pub open spec fn closing<T>(
    ts: Seq<Token>,
    pos: int,
    used: nat,
    kind: TokenType,
    message: Seq<char>,
    value: T,
) -> Parsed<T> {
    match expect(ts, pos + used, kind, message) {
        Parsed::Done(_, _) => Parsed::Done(value, used),
        Parsed::Failed(error, _) => Parsed::Failed(error, used),
    }
}

/// The literal that a keyword denotes: `true`, `false` and `nil` denote
/// themselves, and every other kind of token denotes `nil`.
pub open spec fn keyword_literal(kind: TokenType) -> Literal {
    match kind {
        TokenType::True => Literal::True,
        TokenType::False => Literal::False,
        _ => Literal::Nil,
    }
}

/// The levels of operators between two operands, from the loosest to the
/// tightest.
#[derive(Debug, Clone, Copy, PartialEq, Eq, Structural)]
pub enum Level {
    Or,
    And,
    Equality,
    Comparison,
    Term,
    Factor,
}

/// Whether a token of this kind is an operator of the level.
pub open spec fn is_operator(level: Level, kind: TokenType) -> bool {
    match level {
        Level::Or => kind == TokenType::Or,
        Level::And => kind == TokenType::And,
        Level::Equality => kind == TokenType::BangEqual || kind == TokenType::EqualEqual,
        Level::Comparison => kind == TokenType::LessEqual || kind == TokenType::Less || kind
            == TokenType::Greater || kind == TokenType::GreaterEqual,
        Level::Term => kind == TokenType::Minus || kind == TokenType::Plus,
        Level::Factor => kind == TokenType::Slash || kind == TokenType::Star,
    }
}

/// The node that an operator of the level makes of its two operands.
pub open spec fn join(level: Level, left: Expr, operator: Token, right: Expr) -> Expr {
    match level {
        Level::Or | Level::And => Expr::Logical {
            left: Box::new(left),
            operator,
            right: Box::new(right),
        },
        _ => Expr::Binary(Box::new(left), operator, Box::new(right)),
    }
}

/// Orders the productions that may call one another without taking a token.
pub open spec fn rank(level: Level) -> nat {
    match level {
        Level::Or => 24,
        Level::And => 20,
        Level::Equality => 16,
        Level::Comparison => 12,
        Level::Term => 8,
        Level::Factor => 4,
    }
}

/// `primary := NUMBER | STRING | "true" | "false" | "nil" | IDENTIFIER | "(" expression ")"`
pub open spec fn primary(ts: Seq<Token>, pos: int) -> Parsed<Expr>
    decreases remaining(ts, pos), 0nat,
{
    if at(ts, pos, TokenType::False) || at(ts, pos, TokenType::True) || at(ts, pos, TokenType::Nil) {
        Parsed::Done(Expr::Literal(keyword_literal(ts[pos].token_type)), 0)
    } else if at(ts, pos, TokenType::Number) || at(ts, pos, TokenType::String) {
        match ts[pos].literal {
            Some(literal) => Parsed::Done(Expr::Literal(literal), 0),
            None => Parsed::Failed(ErrorView::EmptyLiteral(ts[pos]), 1),
        }
    } else if at(ts, pos, TokenType::Identifier) {
        Parsed::Done(Expr::Variable(ts[pos]), 0)
    } else if at(ts, pos, TokenType::LeftParen) {
        match expression(ts, pos + 1) {
            Parsed::Done(inner, more) => closing(
                ts,
                pos,
                more + 2,
                TokenType::RightParen,
                "Expect ')' after expression."@,
                Expr::Grouping(Box::new(inner)),
            ),
            Parsed::Failed(error, used) => Parsed::Failed(error, used + 1),
        }
    } else if 0 <= pos < ts.len() {
        Parsed::Failed(ErrorView::UnexpectedToken(ts[pos], ts[pos].line as int), 0)
    } else {
        Parsed::Failed(ErrorView::OutOfBounds(pos), 0)
    }
}

/// `unary := ("!" | "-") unary | primary`
pub open spec fn unary(ts: Seq<Token>, pos: int) -> Parsed<Expr>
    decreases remaining(ts, pos), 1nat,
{
    if at(ts, pos, TokenType::Bang) || at(ts, pos, TokenType::Minus) {
        match unary(ts, pos + 1) {
            Parsed::Done(operand, more) => Parsed::Done(
                Expr::Unary(ts[pos], Box::new(operand)),
                more + 1,
            ),
            Parsed::Failed(error, used) => Parsed::Failed(error, used + 1),
        }
    } else {
        primary(ts, pos)
    }
}

/// One operand of an operator of the level.
pub open spec fn operand(ts: Seq<Token>, pos: int, level: Level) -> Parsed<Expr>
    decreases remaining(ts, pos), rank(level) - 1,
{
    match level {
        Level::Or => infix(ts, pos, Level::And),
        Level::And => ternary(ts, pos),
        Level::Equality => infix(ts, pos, Level::Comparison),
        Level::Comparison => infix(ts, pos, Level::Term),
        Level::Term => infix(ts, pos, Level::Factor),
        Level::Factor => unary(ts, pos),
    }
}

/// One level of operators: an operand, and then operators of the level
/// with an operand each, as many as follow. For the six levels:
///
/// `logic_or := logic_and ("or" logic_and)*`,
/// `logic_and := ternary ("and" ternary)*`,
/// `equality := comparison (("!=" | "==") comparison)*`,
/// `comparison := term ((">" | ">=" | "<" | "<=") term)*`,
/// `term := factor (("-" | "+") factor)*`,
/// `factor := unary (("/" | "*") unary)*`.
pub open spec fn infix(ts: Seq<Token>, pos: int, level: Level) -> Parsed<Expr>
    decreases remaining(ts, pos), rank(level),
{
    match operand(ts, pos, level) {
        Parsed::Done(left, more) => infix_rest(ts, pos, level, left, more),
        Parsed::Failed(error, used) => Parsed::Failed(error, used),
    }
}

/// What follows the operands read so far, which make `left` and took
/// `used` tokens beyond the first: each further operator folds what stands
/// to its left into its left operand.
pub open spec fn infix_rest(ts: Seq<Token>, pos: int, level: Level, left: Expr, used: nat) -> Parsed<
    Expr,
>
    decreases remaining(ts, pos + 1 + used), 0nat,
{
    let here = pos + 1 + used;
    if 0 <= here < ts.len() && !is_end(ts, here) && is_operator(level, ts[here].token_type) {
        match operand(ts, here + 1, level) {
            Parsed::Done(right, more) => infix_rest(
                ts,
                pos,
                level,
                join(level, left, ts[here], right),
                used + 2 + more,
            ),
            Parsed::Failed(error, taken) => Parsed::Failed(error, used + 2 + taken),
        }
    } else {
        Parsed::Done(left, used)
    }
}

/// `ternary := equality ("?" equality ":" equality)*`
pub open spec fn ternary(ts: Seq<Token>, pos: int) -> Parsed<Expr>
    decreases remaining(ts, pos), 18nat,
{
    match infix(ts, pos, Level::Equality) {
        Parsed::Done(condition, more) => ternary_rest(ts, pos, condition, more),
        Parsed::Failed(error, used) => Parsed::Failed(error, used),
    }
}

/// What follows a condition that took `used` tokens beyond the first.
pub open spec fn ternary_rest(ts: Seq<Token>, pos: int, condition: Expr, used: nat) -> Parsed<Expr>
    decreases remaining(ts, pos + 1 + used), 0nat,
{
    let here = pos + 1 + used;
    if at(ts, here, TokenType::QuestionMark) {
        match infix(ts, here + 1, Level::Equality) {
            Parsed::Done(inner_true, m) => match expect(
                ts,
                here + 2 + m,
                TokenType::Colon,
                "Expect ':' after expression"@,
            ) {
                Parsed::Done(_, _) => match infix(ts, here + 3 + m, Level::Equality) {
                    Parsed::Done(inner_false, k) => ternary_rest(
                        ts,
                        pos,
                        Expr::Condition(
                            Box::new(condition),
                            Box::new(inner_true),
                            Box::new(inner_false),
                        ),
                        used + 4 + m + k,
                    ),
                    Parsed::Failed(error, taken) => Parsed::Failed(error, used + 4 + m + taken),
                },
                Parsed::Failed(error, _) => Parsed::Failed(error, used + 3 + m),
            },
            Parsed::Failed(error, taken) => Parsed::Failed(error, used + 2 + taken),
        }
    } else {
        Parsed::Done(condition, used)
    }
}

/// `assignment := IDENTIFIER "=" assignment | logic_or`
///
/// The left side is read as an expression first; where `=` follows, it
/// must have come out as a variable.
pub open spec fn assignment(ts: Seq<Token>, pos: int) -> Parsed<Expr>
    decreases remaining(ts, pos), 25nat,
{
    match infix(ts, pos, Level::Or) {
        Parsed::Done(target, m) => if at(ts, pos + 1 + m, TokenType::Equal) {
            match assignment(ts, pos + 2 + m) {
                Parsed::Done(value, k) => match target {
                    Expr::Variable(name) => Parsed::Done(
                        Expr::Assign(name, Box::new(value)),
                        m + 2 + k,
                    ),
                    _ => Parsed::Failed(
                        ErrorView::InvalidAssignmentTarget(ts[pos + 1 + m]),
                        m + 3 + k,
                    ),
                },
                Parsed::Failed(error, used) => Parsed::Failed(error, m + 2 + used),
            }
        } else {
            Parsed::Done(target, m)
        },
        Parsed::Failed(error, used) => Parsed::Failed(error, used),
    }
}

/// `expression := assignment`
pub open spec fn expression(ts: Seq<Token>, pos: int) -> Parsed<Expr>
    decreases remaining(ts, pos), 26nat,
{
    assignment(ts, pos)
}

/// `expression ";"`, as a statement that evaluates the expression.
pub open spec fn express_statement(ts: Seq<Token>, pos: int) -> Parsed<StmtView>
    decreases remaining(ts, pos), 27nat,
{
    match expression(ts, pos) {
        Parsed::Done(value, m) => closing(
            ts,
            pos,
            m + 1,
            TokenType::Semicolon,
            "Expect ';' after value."@,
            StmtView::Expression(value),
        ),
        Parsed::Failed(error, used) => Parsed::Failed(error, used),
    }
}

/// `expression ";"` behind `print`.
pub open spec fn print_statement(ts: Seq<Token>, pos: int) -> Parsed<StmtView>
    decreases remaining(ts, pos), 27nat,
{
    match expression(ts, pos) {
        Parsed::Done(value, m) => closing(
            ts,
            pos,
            m + 1,
            TokenType::Semicolon,
            "Expect ';' after value."@,
            StmtView::Print(value),
        ),
        Parsed::Failed(error, used) => Parsed::Failed(error, used),
    }
}

/// `IDENTIFIER ("=" expression)? ";"` behind `var`.
pub open spec fn var_declaration(ts: Seq<Token>, pos: int) -> Parsed<StmtView>
    decreases remaining(ts, pos), 27nat,
{
    match expect(ts, pos, TokenType::Identifier, "Expect variable name."@) {
        Parsed::Done(name, _) => if at(ts, pos + 1, TokenType::Equal) {
            match expression(ts, pos + 2) {
                Parsed::Done(initializer, m) => closing(
                    ts,
                    pos,
                    m + 3,
                    TokenType::Semicolon,
                    "Expect ';' after variable declaration."@,
                    StmtView::Var(name, Some(initializer)),
                ),
                Parsed::Failed(error, used) => Parsed::Failed(error, used + 2),
            }
        } else {
            closing(
                ts,
                pos,
                1,
                TokenType::Semicolon,
                "Expect ';' after variable declaration."@,
                StmtView::Var(name, None),
            )
        },
        Parsed::Failed(error, used) => Parsed::Failed(error, used),
    }
}

/// `"(" expression ")"`, the condition of a statement. The messages are for
/// a missing `(` and a missing `)`.
pub open spec fn condition(ts: Seq<Token>, pos: int, opening: Seq<char>, closing: Seq<char>) -> Parsed<
    Expr,
>
    decreases remaining(ts, pos), 27nat,
{
    match expect(ts, pos, TokenType::LeftParen, opening) {
        Parsed::Done(_, _) => match expression(ts, pos + 1) {
            Parsed::Done(condition, m) => self::closing(
                ts,
                pos,
                m + 2,
                TokenType::RightParen,
                closing,
                condition,
            ),
            Parsed::Failed(error, used) => Parsed::Failed(error, used + 1),
        },
        Parsed::Failed(error, used) => Parsed::Failed(error, used),
    }
}

/// `"(" expression ")" statement` behind `while`.
pub open spec fn while_statement(ts: Seq<Token>, pos: int) -> Parsed<StmtView>
    decreases remaining(ts, pos), 28nat,
{
    match condition(ts, pos, "Expect '(' after 'while'."@, "Expect ')' after condition."@) {
        Parsed::Done(condition, m) => match statement(ts, pos + 1 + m) {
            Parsed::Done(body, k) => Parsed::Done(
                StmtView::While { condition, body: Box::new(body) },
                m + 1 + k,
            ),
            Parsed::Failed(error, used) => Parsed::Failed(error, m + 1 + used),
        },
        Parsed::Failed(error, used) => Parsed::Failed(error, used),
    }
}

/// `"(" expression ")" statement ("else" statement)?` behind `if`.
pub open spec fn if_statement(ts: Seq<Token>, pos: int) -> Parsed<StmtView>
    decreases remaining(ts, pos), 28nat,
{
    match condition(ts, pos, "Expect '(' after 'if'."@, "Expect ')' after if condition."@) {
        Parsed::Done(condition, m) => after(m + 1, branches(ts, pos + 1 + m, condition)),
        Parsed::Failed(error, used) => Parsed::Failed(error, used),
    }
}

/// `statement ("else" statement)?`, the branches of an `if` with the given
/// condition.
pub open spec fn branches(ts: Seq<Token>, pos: int, condition: Expr) -> Parsed<StmtView>
    decreases remaining(ts, pos), 32nat,
{
    match statement(ts, pos) {
        Parsed::Done(then_branch, k) => if at(ts, pos + 1 + k, TokenType::Else) {
            match statement(ts, pos + 2 + k) {
                Parsed::Done(else_branch, j) => Parsed::Done(
                    StmtView::If {
                        condition,
                        then_branch: Box::new(then_branch),
                        else_branch: Some(Box::new(else_branch)),
                    },
                    k + 2 + j,
                ),
                Parsed::Failed(error, used) => Parsed::Failed(error, k + 2 + used),
            }
        } else {
            Parsed::Done(
                StmtView::If {
                    condition,
                    then_branch: Box::new(then_branch),
                    else_branch: None,
                },
                k,
            )
        },
        Parsed::Failed(error, used) => Parsed::Failed(error, used),
    }
}

/// What a `for` loop is short for: the body with the increment behind
/// it, run while the condition holds (always, where there is none), all of
/// it behind the initialiser.
pub open spec fn desugar(
    initializer: Option<StmtView>,
    condition: Option<Expr>,
    increment: Option<Expr>,
    body: StmtView,
) -> StmtView {
    let stepped = match increment {
        Some(increment) => StmtView::Block(seq![body, StmtView::Expression(increment)]),
        None => body,
    };
    let looped = StmtView::While {
        condition: match condition {
            Some(condition) => condition,
            None => Expr::Literal(Literal::True),
        },
        body: Box::new(stepped),
    };
    match initializer {
        Some(initializer) => StmtView::Block(seq![initializer, looped]),
        None => looped,
    }
}

/// `"(" (varDecl | exprStmt | ";") expression? ";" expression? ")" statement`
/// behind `for`.
pub open spec fn for_statement(ts: Seq<Token>, pos: int) -> Parsed<StmtView>
    decreases remaining(ts, pos), 27nat,
{
    match expect(ts, pos, TokenType::LeftParen, "Expect '(' after 'for'."@) {
        Parsed::Done(_, _) => if at(ts, pos + 1, TokenType::Semicolon) {
            after(2, for_condition(ts, pos + 2, None))
        } else if at(ts, pos + 1, TokenType::Var) {
            match var_declaration(ts, pos + 2) {
                Parsed::Done(initializer, m) => after(
                    m + 3,
                    for_condition(ts, pos + 3 + m, Some(initializer)),
                ),
                Parsed::Failed(error, used) => Parsed::Failed(error, used + 2),
            }
        } else {
            match express_statement(ts, pos + 1) {
                Parsed::Done(initializer, m) => after(
                    m + 2,
                    for_condition(ts, pos + 2 + m, Some(initializer)),
                ),
                Parsed::Failed(error, used) => Parsed::Failed(error, used + 1),
            }
        },
        Parsed::Failed(error, used) => Parsed::Failed(error, used),
    }
}

/// `expression? ";" expression? ")" statement`: a `for` loop from its
/// condition on.
pub open spec fn for_condition(ts: Seq<Token>, pos: int, initializer: Option<StmtView>) -> Parsed<
    StmtView,
>
    decreases remaining(ts, pos), 32nat,
{
    if at(ts, pos, TokenType::Semicolon) {
        after(1, for_increment(ts, pos + 1, initializer, None))
    } else {
        match expression(ts, pos) {
            Parsed::Done(condition, m) => match expect(
                ts,
                pos + 1 + m,
                TokenType::Semicolon,
                "Expect ';' after loop condition."@,
            ) {
                Parsed::Done(_, _) => after(
                    m + 2,
                    for_increment(ts, pos + 2 + m, initializer, Some(condition)),
                ),
                Parsed::Failed(error, _) => Parsed::Failed(error, m + 1),
            },
            Parsed::Failed(error, used) => Parsed::Failed(error, used),
        }
    }
}

/// `expression? ")" statement`: a `for` loop from its increment on.
pub open spec fn for_increment(
    ts: Seq<Token>,
    pos: int,
    initializer: Option<StmtView>,
    condition: Option<Expr>,
) -> Parsed<StmtView>
    decreases remaining(ts, pos), 32nat,
{
    if at(ts, pos, TokenType::RightParen) {
        after(1, for_body(ts, pos + 1, initializer, condition, None))
    } else {
        match expression(ts, pos) {
            Parsed::Done(increment, m) => match expect(
                ts,
                pos + 1 + m,
                TokenType::RightParen,
                "Expect ')' after for clauses."@,
            ) {
                Parsed::Done(_, _) => after(
                    m + 2,
                    for_body(ts, pos + 2 + m, initializer, condition, Some(increment)),
                ),
                Parsed::Failed(error, _) => Parsed::Failed(error, m + 1),
            },
            Parsed::Failed(error, used) => Parsed::Failed(error, used),
        }
    }
}

/// The body of a `for` loop, and the loop as the statements that it is
/// short for.
pub open spec fn for_body(
    ts: Seq<Token>,
    pos: int,
    initializer: Option<StmtView>,
    condition: Option<Expr>,
    increment: Option<Expr>,
) -> Parsed<StmtView>
    decreases remaining(ts, pos), 32nat,
{
    match statement(ts, pos) {
        Parsed::Done(body, m) => Parsed::Done(desugar(initializer, condition, increment, body), m),
        Parsed::Failed(error, used) => Parsed::Failed(error, used),
    }
}

/// `declaration* "}"` behind `{`. `statements` are the declarations read
/// so far, which took `used` tokens.
pub open spec fn block(ts: Seq<Token>, pos: int, used: nat, statements: Seq<StmtView>) -> Parsed<
    Seq<StmtView>,
>
    decreases remaining(ts, pos + used), 31nat,
{
    let here = pos + used;
    if !at(ts, here, TokenType::RightBrace) && !is_end(ts, here) {
        match declaration(ts, here) {
            Parsed::Done(statement, m) => block(ts, pos, used + 1 + m, statements.push(statement)),
            Parsed::Failed(error, taken) => Parsed::Failed(error, used + taken),
        }
    } else {
        closing(ts, pos, used, TokenType::RightBrace, "Expect '}' after block."@, statements)
    }
}

/// `statement := ifStmt | forStmt | printStmt | whileStmt | block | exprStmt`
pub open spec fn statement(ts: Seq<Token>, pos: int) -> Parsed<StmtView>
    decreases remaining(ts, pos), 29nat,
{
    if at(ts, pos, TokenType::If) {
        after(1, if_statement(ts, pos + 1))
    } else if at(ts, pos, TokenType::For) {
        after(1, for_statement(ts, pos + 1))
    } else if at(ts, pos, TokenType::Print) {
        after(1, print_statement(ts, pos + 1))
    } else if at(ts, pos, TokenType::While) {
        after(1, while_statement(ts, pos + 1))
    } else if at(ts, pos, TokenType::LeftBrace) {
        match block(ts, pos + 1, 0, seq![]) {
            Parsed::Done(statements, m) => Parsed::Done(StmtView::Block(statements), m + 1),
            Parsed::Failed(error, used) => Parsed::Failed(error, used + 1),
        }
    } else {
        express_statement(ts, pos)
    }
}

/// `declaration := "var" IDENTIFIER ("=" expression)? ";" | statement`
pub open spec fn declaration(ts: Seq<Token>, pos: int) -> Parsed<StmtView>
    decreases remaining(ts, pos), 30nat,
{
    if at(ts, pos, TokenType::Var) {
        after(1, var_declaration(ts, pos + 1))
    } else {
        statement(ts, pos)
    }
}

/// Whether a statement begins with a token of this kind.
pub open spec fn begins_statement(kind: TokenType) -> bool {
    kind == TokenType::Class || kind == TokenType::Fun || kind == TokenType::Var || kind
        == TokenType::For || kind == TokenType::If || kind == TokenType::While || kind
        == TokenType::Print || kind == TokenType::Return
}

/// Whether parsing can go on at `pos` after an error: the place stands
/// behind a semicolon, or it holds a token with which a statement begins.
pub open spec fn is_boundary(ts: Seq<Token>, pos: int) -> bool {
    1 <= pos <= ts.len() && (ts[pos - 1].token_type == TokenType::Semicolon || (pos < ts.len()
        && begins_statement(ts[pos].token_type)))
}

/// The first boundary from `pos` on, up to the end. The place behind a
/// semicolon is a boundary also where it is the end; there is none only
/// where the end is reached without one.
pub open spec fn boundary(ts: Seq<Token>, pos: int) -> Option<int>
    decreases remaining(ts, pos),
{
    if pos < 1 || pos > ts.len() {
        None
    } else if is_boundary(ts, pos) {
        Some(pos)
    } else if is_end(ts, pos) {
        None
    } else {
        boundary(ts, pos + 1)
    }
}

/// Where parsing goes on after an error that left the cursor at `pos`:
/// behind the token there, at the first boundary. An error at the end
/// itself leaves nothing to go on with.
pub open spec fn synchronize(ts: Seq<Token>, pos: int) -> Option<int> {
    if pos < 0 || is_end(ts, pos) {
        None
    } else {
        boundary(ts, pos + 1)
    }
}

/// What a whole token sequence comes to.
pub struct Program {
    /// The declarations that were parsed, in their order.
    pub statements: Seq<StmtView>,
    /// The error of each declaration that was given up, in their order.
    pub errors: Seq<ErrorView>,
    /// Whether the end was reached: not so where, behind an error, no
    /// boundary was found.
    pub complete: bool,
}

/// `program := declaration* end-of-input`, from `pos` on, behind the
/// statements and the errors that came before. A declaration with an error
/// is left out, and parsing goes on at the next boundary.
#[verifier::opaque]
pub open spec fn program(
    ts: Seq<Token>,
    pos: int,
    statements: Seq<StmtView>,
    errors: Seq<ErrorView>,
) -> Program
    decreases remaining(ts, pos),
{
    if pos < 0 || is_end(ts, pos) {
        Program { statements, errors, complete: true }
    } else {
        match declaration(ts, pos) {
            Parsed::Done(statement, m) => program(ts, pos + 1 + m, statements.push(statement), errors),
            Parsed::Failed(error, used) => match synchronize(ts, pos + used) {
                Some(next) => {
                    proof {
                        lemma_boundary(ts, pos + used + 1);
                    }
                    program(ts, next, statements, errors.push(error))
                },
                None => Program { statements, errors: errors.push(error), complete: false },
            },
        }
    }
}

/// A boundary lies at or behind the place from which it was sought, and
/// not behind the end.
pub proof fn lemma_boundary(ts: Seq<Token>, pos: int)
    ensures
        boundary(ts, pos) is Some ==> pos <= boundary(ts, pos).unwrap() <= ts.len() && is_boundary(
            ts,
            boundary(ts, pos).unwrap(),
        ),
    decreases remaining(ts, pos),
{
    if pos < 1 || pos > ts.len() {
    } else if is_boundary(ts, pos) {
    } else if is_end(ts, pos) {
    } else {
        lemma_boundary(ts, pos + 1);
    }
}

/// Whether the end-of-input token closes the tokens and stands nowhere
/// else among them.
pub open spec fn ends_once(ts: Seq<Token>) -> bool {
    ts.len() > 0 && forall|k: int|
        0 <= k < ts.len() ==> ((#[trigger] ts[k]).token_type == TokenType::Eof <==> k == ts.len()
            - 1)
}

/// On tokens that the end-of-input token closes, the boundary that is
/// found is the least one from `pos` up to the closing token, and none is
/// found only where there is none up to there.
pub proof fn lemma_boundary_is_least(ts: Seq<Token>, pos: int)
    requires
        ends_once(ts),
        1 <= pos < ts.len(),
    ensures
        match boundary(ts, pos) {
            Some(found) => pos <= found < ts.len() && is_boundary(ts, found) && forall|j: int|
                pos <= j < found ==> !is_boundary(ts, j),
            None => forall|j: int| pos <= j < ts.len() ==> !is_boundary(ts, j),
        },
    decreases ts.len() - pos,
{
    if is_boundary(ts, pos) {
    } else if is_end(ts, pos) {
        assert(ts[pos].token_type == TokenType::Eof);
        assert(pos == ts.len() - 1);
    } else {
        assert(ts[pos].token_type != TokenType::Eof);
        lemma_boundary_is_least(ts, pos + 1);
    }
}

/// After an error that left the cursor at `pos`, on tokens that the
/// end-of-input token closes, parsing goes on at the least place behind
/// `pos`, up to the closing token, that stands behind a semicolon or holds
/// a token with which a statement begins; and it cannot go on only where
/// there is no such place.
pub proof fn lemma_synchronize(ts: Seq<Token>, pos: int)
    requires
        ends_once(ts),
        0 <= pos < ts.len(),
    ensures
        match synchronize(ts, pos) {
            Some(found) => pos < found < ts.len() && is_boundary(ts, found) && forall|j: int|
                pos < j < found ==> !is_boundary(ts, j),
            None => forall|j: int| pos < j < ts.len() ==> !is_boundary(ts, j),
        },
{
    if pos < ts.len() - 1 {
        assert(ts[pos].token_type != TokenType::Eof);
        lemma_boundary_is_least(ts, pos + 1);
    } else {
        assert(ts[pos].token_type == TokenType::Eof);
    }
}

} // verus!
