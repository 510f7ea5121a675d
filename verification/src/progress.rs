//! Laws of the grammar: parsing never runs out of the tokens of a scanned text.

use crate::expr::{Expr, StmtView};
use crate::grammar::{
    assignment, at, block, boundary, branches, condition, declaration, expect, express_statement,
    expression, for_body, for_condition, for_increment, for_statement, if_statement, infix,
    infix_rest, is_end, is_operator, lemma_boundary, operand, primary, print_statement, program,
    rank, remaining, statement, synchronize, ternary, ternary_rest, unary, var_declaration,
    while_statement, ErrorView, Level, Parsed,
};
use crate::scanner::{scan_result, token_views};
use crate::token::{Token, TokenType, TokenView};
use vstd::prelude::*;

verus! {

/// Whether the tokens end in the end-of-input token, as every sequence of
/// tokens does that comes from scanning.
pub open spec fn closed(ts: Seq<Token>) -> bool {
    ts.len() > 0 && ts.last().token_type == TokenType::Eof
}

/// Whether a production that began at `pos` has stayed before the last
/// token: it has not taken it, and it has not run out of tokens.
pub open spec fn inside<T>(parsed: Parsed<T>, ts: Seq<Token>, pos: int) -> bool {
    match parsed {
        Parsed::Done(_, more) => pos + 1 + more < ts.len(),
        Parsed::Failed(error, used) => pos + used < ts.len() && !(error is OutOfBounds),
    }
}

/// No error among them says that the tokens ran out.
pub open spec fn none_out_of_bounds(errors: Seq<ErrorView>) -> bool {
    forall|i: int| 0 <= i < errors.len() ==> !(#[trigger] errors[i] is OutOfBounds)
}

/// A primary expression stays before the last token.
pub proof fn lemma_primary(ts: Seq<Token>, pos: int)
    requires
        closed(ts),
        0 <= pos < ts.len(),
    ensures
        inside(primary(ts, pos), ts, pos),
    decreases remaining(ts, pos), 0nat,
{
    if at(ts, pos, TokenType::LeftParen) {
        lemma_expression(ts, pos + 1);
    }
}

/// A unary expression stays before the last token.
pub proof fn lemma_unary(ts: Seq<Token>, pos: int)
    requires
        closed(ts),
        0 <= pos < ts.len(),
    ensures
        inside(unary(ts, pos), ts, pos),
    decreases remaining(ts, pos), 1nat,
{
    if at(ts, pos, TokenType::Bang) || at(ts, pos, TokenType::Minus) {
        lemma_unary(ts, pos + 1);
    } else {
        lemma_primary(ts, pos);
    }
}

/// An operand stays before the last token.
pub proof fn lemma_operand(ts: Seq<Token>, pos: int, level: Level)
    requires
        closed(ts),
        0 <= pos < ts.len(),
    ensures
        inside(operand(ts, pos, level), ts, pos),
    decreases remaining(ts, pos), rank(level) - 1,
{
    match level {
        Level::Or => lemma_infix(ts, pos, Level::And),
        Level::And => lemma_ternary(ts, pos),
        Level::Equality => lemma_infix(ts, pos, Level::Comparison),
        Level::Comparison => lemma_infix(ts, pos, Level::Term),
        Level::Term => lemma_infix(ts, pos, Level::Factor),
        Level::Factor => lemma_unary(ts, pos),
    }
}

/// A level of operators stays before the last token.
pub proof fn lemma_infix(ts: Seq<Token>, pos: int, level: Level)
    requires
        closed(ts),
        0 <= pos < ts.len(),
    ensures
        inside(infix(ts, pos, level), ts, pos),
    decreases remaining(ts, pos), rank(level),
{
    lemma_operand(ts, pos, level);
    match operand(ts, pos, level) {
        Parsed::Done(left, more) => lemma_infix_rest(ts, pos, level, left, more),
        Parsed::Failed(_, _) => {},
    }
}

/// What follows an operand of a level stays before the last token.
pub proof fn lemma_infix_rest(ts: Seq<Token>, pos: int, level: Level, left: Expr, used: nat)
    requires
        closed(ts),
        0 <= pos,
        pos + 1 + used < ts.len(),
    ensures
        inside(infix_rest(ts, pos, level, left, used), ts, pos),
    decreases remaining(ts, pos + 1 + used), 0nat,
{
    let here = pos + 1 + used;
    if !is_end(ts, here) && is_operator(level, ts[here].token_type) {
        lemma_operand(ts, here + 1, level);
        match operand(ts, here + 1, level) {
            Parsed::Done(right, more) => lemma_infix_rest(
                ts,
                pos,
                level,
                crate::grammar::join(level, left, ts[here], right),
                used + 2 + more,
            ),
            Parsed::Failed(_, _) => {},
        }
    }
}

/// A choice stays before the last token.
pub proof fn lemma_ternary(ts: Seq<Token>, pos: int)
    requires
        closed(ts),
        0 <= pos < ts.len(),
    ensures
        inside(ternary(ts, pos), ts, pos),
    decreases remaining(ts, pos), 18nat,
{
    lemma_infix(ts, pos, Level::Equality);
    match infix(ts, pos, Level::Equality) {
        Parsed::Done(first, more) => lemma_ternary_rest(ts, pos, first, more),
        Parsed::Failed(_, _) => {},
    }
}

/// What follows the condition of a choice stays before the last token.
pub proof fn lemma_ternary_rest(ts: Seq<Token>, pos: int, first: Expr, used: nat)
    requires
        closed(ts),
        0 <= pos,
        pos + 1 + used < ts.len(),
    ensures
        inside(ternary_rest(ts, pos, first, used), ts, pos),
    decreases remaining(ts, pos + 1 + used), 0nat,
{
    let here = pos + 1 + used;
    if at(ts, here, TokenType::QuestionMark) {
        lemma_infix(ts, here + 1, Level::Equality);
        match infix(ts, here + 1, Level::Equality) {
            Parsed::Done(inner_true, m) => {
                match expect(ts, here + 2 + m, TokenType::Colon, "Expect ':' after expression"@) {
                    Parsed::Done(_, _) => {
                        lemma_infix(ts, here + 3 + m, Level::Equality);
                        match infix(ts, here + 3 + m, Level::Equality) {
                            Parsed::Done(inner_false, k) => lemma_ternary_rest(
                                ts,
                                pos,
                                Expr::Condition(
                                    Box::new(first),
                                    Box::new(inner_true),
                                    Box::new(inner_false),
                                ),
                                used + 4 + m + k,
                            ),
                            Parsed::Failed(_, _) => {},
                        }
                    },
                    Parsed::Failed(_, _) => {},
                }
            },
            Parsed::Failed(_, _) => {},
        }
    }
}

/// An assignment stays before the last token.
pub proof fn lemma_assignment(ts: Seq<Token>, pos: int)
    requires
        closed(ts),
        0 <= pos < ts.len(),
    ensures
        inside(assignment(ts, pos), ts, pos),
    decreases remaining(ts, pos), 25nat,
{
    lemma_infix(ts, pos, Level::Or);
    match infix(ts, pos, Level::Or) {
        Parsed::Done(target, m) => {
            if at(ts, pos + 1 + m, TokenType::Equal) {
                lemma_assignment(ts, pos + 2 + m);
            }
        },
        Parsed::Failed(_, _) => {},
    }
}

/// An expression stays before the last token.
pub proof fn lemma_expression(ts: Seq<Token>, pos: int)
    requires
        closed(ts),
        0 <= pos < ts.len(),
    ensures
        inside(expression(ts, pos), ts, pos),
    decreases remaining(ts, pos), 26nat,
{
    lemma_assignment(ts, pos);
}

/// An expression statement stays before the last token.
pub proof fn lemma_express_statement(ts: Seq<Token>, pos: int)
    requires
        closed(ts),
        0 <= pos < ts.len(),
    ensures
        inside(express_statement(ts, pos), ts, pos),
    decreases remaining(ts, pos), 27nat,
{
    lemma_expression(ts, pos);
}

/// A print statement stays before the last token.
pub proof fn lemma_print_statement(ts: Seq<Token>, pos: int)
    requires
        closed(ts),
        0 <= pos < ts.len(),
    ensures
        inside(print_statement(ts, pos), ts, pos),
    decreases remaining(ts, pos), 27nat,
{
    lemma_expression(ts, pos);
}

/// A variable declaration stays before the last token.
pub proof fn lemma_var_declaration(ts: Seq<Token>, pos: int)
    requires
        closed(ts),
        0 <= pos < ts.len(),
    ensures
        inside(var_declaration(ts, pos), ts, pos),
    decreases remaining(ts, pos), 27nat,
{
    if at(ts, pos, TokenType::Identifier) && at(ts, pos + 1, TokenType::Equal) {
        lemma_expression(ts, pos + 2);
    }
}

/// A condition in brackets stays before the last token.
pub proof fn lemma_condition(ts: Seq<Token>, pos: int, opening: Seq<char>, closing: Seq<char>)
    requires
        closed(ts),
        0 <= pos < ts.len(),
    ensures
        inside(condition(ts, pos, opening, closing), ts, pos),
    decreases remaining(ts, pos), 27nat,
{
    if at(ts, pos, TokenType::LeftParen) {
        lemma_expression(ts, pos + 1);
    }
}

/// A `while` loop stays before the last token.
pub proof fn lemma_while_statement(ts: Seq<Token>, pos: int)
    requires
        closed(ts),
        0 <= pos < ts.len(),
    ensures
        inside(while_statement(ts, pos), ts, pos),
    decreases remaining(ts, pos), 28nat,
{
    let opening = "Expect '(' after 'while'."@;
    let closing = "Expect ')' after condition."@;
    lemma_condition(ts, pos, opening, closing);
    match condition(ts, pos, opening, closing) {
        Parsed::Done(_, m) => lemma_statement(ts, pos + 1 + m),
        Parsed::Failed(_, _) => {},
    }
}

/// An `if` statement stays before the last token.
pub proof fn lemma_if_statement(ts: Seq<Token>, pos: int)
    requires
        closed(ts),
        0 <= pos < ts.len(),
    ensures
        inside(if_statement(ts, pos), ts, pos),
    decreases remaining(ts, pos), 28nat,
{
    let opening = "Expect '(' after 'if'."@;
    let closing = "Expect ')' after if condition."@;
    lemma_condition(ts, pos, opening, closing);
    match condition(ts, pos, opening, closing) {
        Parsed::Done(found, m) => lemma_branches(ts, pos + 1 + m, found),
        Parsed::Failed(_, _) => {},
    }
}

/// The branches of an `if` statement stay before the last token.
pub proof fn lemma_branches(ts: Seq<Token>, pos: int, found: Expr)
    requires
        closed(ts),
        0 <= pos < ts.len(),
    ensures
        inside(branches(ts, pos, found), ts, pos),
    decreases remaining(ts, pos), 32nat,
{
    lemma_statement(ts, pos);
    match statement(ts, pos) {
        Parsed::Done(_, k) => {
            if at(ts, pos + 1 + k, TokenType::Else) {
                lemma_statement(ts, pos + 2 + k);
            }
        },
        Parsed::Failed(_, _) => {},
    }
}

/// A `for` loop stays before the last token.
pub proof fn lemma_for_statement(ts: Seq<Token>, pos: int)
    requires
        closed(ts),
        0 <= pos < ts.len(),
    ensures
        inside(for_statement(ts, pos), ts, pos),
    decreases remaining(ts, pos), 27nat,
{
    if at(ts, pos, TokenType::LeftParen) {
        if at(ts, pos + 1, TokenType::Semicolon) {
            lemma_for_condition(ts, pos + 2, None);
        } else if at(ts, pos + 1, TokenType::Var) {
            lemma_var_declaration(ts, pos + 2);
            match var_declaration(ts, pos + 2) {
                Parsed::Done(initializer, m) => lemma_for_condition(
                    ts,
                    pos + 3 + m,
                    Some(initializer),
                ),
                Parsed::Failed(_, _) => {},
            }
        } else {
            lemma_express_statement(ts, pos + 1);
            match express_statement(ts, pos + 1) {
                Parsed::Done(initializer, m) => lemma_for_condition(
                    ts,
                    pos + 2 + m,
                    Some(initializer),
                ),
                Parsed::Failed(_, _) => {},
            }
        }
    }
}

/// A `for` loop from its condition on stays before the last token.
pub proof fn lemma_for_condition(ts: Seq<Token>, pos: int, initializer: Option<StmtView>)
    requires
        closed(ts),
        0 <= pos < ts.len(),
    ensures
        inside(for_condition(ts, pos, initializer), ts, pos),
    decreases remaining(ts, pos), 32nat,
{
    if at(ts, pos, TokenType::Semicolon) {
        lemma_for_increment(ts, pos + 1, initializer, None);
    } else {
        lemma_expression(ts, pos);
        match expression(ts, pos) {
            Parsed::Done(found, m) => {
                if at(ts, pos + 1 + m, TokenType::Semicolon) {
                    lemma_for_increment(ts, pos + 2 + m, initializer, Some(found));
                }
            },
            Parsed::Failed(_, _) => {},
        }
    }
}

/// A `for` loop from its increment on stays before the last token.
pub proof fn lemma_for_increment(
    ts: Seq<Token>,
    pos: int,
    initializer: Option<StmtView>,
    found: Option<Expr>,
)
    requires
        closed(ts),
        0 <= pos < ts.len(),
    ensures
        inside(for_increment(ts, pos, initializer, found), ts, pos),
    decreases remaining(ts, pos), 32nat,
{
    if at(ts, pos, TokenType::RightParen) {
        lemma_for_body(ts, pos + 1, initializer, found, None);
    } else {
        lemma_expression(ts, pos);
        match expression(ts, pos) {
            Parsed::Done(increment, m) => {
                if at(ts, pos + 1 + m, TokenType::RightParen) {
                    lemma_for_body(ts, pos + 2 + m, initializer, found, Some(increment));
                }
            },
            Parsed::Failed(_, _) => {},
        }
    }
}

/// The body of a `for` loop stays before the last token.
pub proof fn lemma_for_body(
    ts: Seq<Token>,
    pos: int,
    initializer: Option<StmtView>,
    found: Option<Expr>,
    increment: Option<Expr>,
)
    requires
        closed(ts),
        0 <= pos < ts.len(),
    ensures
        inside(for_body(ts, pos, initializer, found, increment), ts, pos),
    decreases remaining(ts, pos), 32nat,
{
    lemma_statement(ts, pos);
}

/// A block stays before the last token.
pub proof fn lemma_block(ts: Seq<Token>, pos: int, used: nat, statements: Seq<StmtView>)
    requires
        closed(ts),
        0 <= pos,
        pos + used < ts.len(),
    ensures
        inside(block(ts, pos, used, statements), ts, pos),
    decreases remaining(ts, pos + used), 31nat,
{
    let here = pos + used;
    if !at(ts, here, TokenType::RightBrace) && !is_end(ts, here) {
        lemma_declaration(ts, here);
        match declaration(ts, here) {
            Parsed::Done(statement, m) => lemma_block(
                ts,
                pos,
                used + 1 + m,
                statements.push(statement),
            ),
            Parsed::Failed(_, _) => {},
        }
    }
}

/// A statement stays before the last token.
pub proof fn lemma_statement(ts: Seq<Token>, pos: int)
    requires
        closed(ts),
        0 <= pos < ts.len(),
    ensures
        inside(statement(ts, pos), ts, pos),
    decreases remaining(ts, pos), 29nat,
{
    if at(ts, pos, TokenType::If) {
        lemma_if_statement(ts, pos + 1);
    } else if at(ts, pos, TokenType::For) {
        lemma_for_statement(ts, pos + 1);
    } else if at(ts, pos, TokenType::Print) {
        lemma_print_statement(ts, pos + 1);
    } else if at(ts, pos, TokenType::While) {
        lemma_while_statement(ts, pos + 1);
    } else if at(ts, pos, TokenType::LeftBrace) {
        lemma_block(ts, pos + 1, 0, seq![]);
    } else {
        lemma_express_statement(ts, pos);
    }
}

/// On tokens that end in the end-of-input token, a declaration stays
/// before that token, whether it succeeds or fails, and never fails for
/// want of tokens. The same holds of every production beneath it.
pub proof fn lemma_declaration(ts: Seq<Token>, pos: int)
    requires
        closed(ts),
        0 <= pos < ts.len(),
    ensures
        inside(declaration(ts, pos), ts, pos),
    decreases remaining(ts, pos), 30nat,
{
    if at(ts, pos, TokenType::Var) {
        lemma_var_declaration(ts, pos + 1);
    } else {
        lemma_statement(ts, pos);
    }
}

/// On tokens that end in the end-of-input token, as those that come from
/// scanning do, parsing never runs out of tokens: no error that it notes
/// says so.
pub proof fn lemma_program(
    ts: Seq<Token>,
    pos: int,
    statements: Seq<StmtView>,
    errors: Seq<ErrorView>,
)
    requires
        closed(ts),
        0 <= pos < ts.len(),
        none_out_of_bounds(errors),
    ensures
        none_out_of_bounds(program(ts, pos, statements, errors).errors),
    decreases remaining(ts, pos),
{
    reveal(program);
    if !is_end(ts, pos) {
        lemma_declaration(ts, pos);
        match declaration(ts, pos) {
            Parsed::Done(statement, m) => {
                lemma_program(ts, pos + 1 + m, statements.push(statement), errors);
            },
            Parsed::Failed(error, used) => {
                lemma_boundary(ts, pos + used + 1);
                match synchronize(ts, pos + used) {
                    Some(next) => {
                        lemma_program(ts, next, statements, errors.push(error));
                    },
                    None => {},
                }
            },
        }
    }
}

/// The tokens that come from scanning end in the end-of-input token.
pub proof fn lemma_scanned_is_closed(src: Seq<char>, tokens: Seq<Token>)
    requires
        scan_result(src) == Ok::<Seq<TokenView>, Seq<crate::scanner::ErrorView>>(token_views(tokens)),
    ensures
        closed(tokens),
{
    let views = token_views(tokens);
    assert(views.len() == tokens.len());
    assert(views.last() == tokens.last()@);
}

} // verus!
