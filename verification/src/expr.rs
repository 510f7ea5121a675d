//! The tree of a program: expressions and statements.

use crate::token::{Literal, Token};
use vstd::prelude::*;

verus! {

/// An expression: a tree in which every node owns the nodes below it.
#[derive(Debug)]
pub enum Expr {
    Assign(Token, Box<Expr>),
    Binary(Box<Expr>, Token, Box<Expr>),
    Grouping(Box<Expr>),
    Literal(Literal),
    Logical { left: Box<Expr>, operator: Token, right: Box<Expr> },
    Unary(Token, Box<Expr>),
    Variable(Token),
    Condition(Box<Expr>, Box<Expr>, Box<Expr>),
}

/// A statement.
#[derive(Debug)]
pub enum Stmt {
    Expression(Expr),
    If { condition: Expr, then_branch: Box<Stmt>, else_branch: Option<Box<Stmt>> },
    Print(Expr),
    Var(Token, Option<Expr>),
    While { condition: Expr, body: Box<Stmt> },
    Block(Vec<Stmt>),
}

/// What a `Stmt` stands for: the same tree, with a sequence where the
/// statement holds a vector.
pub enum StmtView {
    Expression(Expr),
    If { condition: Expr, then_branch: Box<StmtView>, else_branch: Option<Box<StmtView>> },
    Print(Expr),
    Var(Token, Option<Expr>),
    While { condition: Expr, body: Box<StmtView> },
    Block(Seq<StmtView>),
}

/// What `statement` stands for.
#[verifier::opaque]
pub open spec fn stmt_view(statement: Stmt) -> StmtView
    decreases statement,
{
    match statement {
        Stmt::Expression(expr) => StmtView::Expression(expr),
        Stmt::If { condition, then_branch, else_branch } => StmtView::If {
            condition,
            then_branch: Box::new(stmt_view(*then_branch)),
            else_branch: match else_branch {
                Some(branch) => Some(Box::new(stmt_view(*branch))),
                None => None,
            },
        },
        Stmt::Print(expr) => StmtView::Print(expr),
        Stmt::Var(name, initializer) => StmtView::Var(name, initializer),
        Stmt::While { condition, body } => StmtView::While {
            condition,
            body: Box::new(stmt_view(*body)),
        },
        Stmt::Block(statements) => StmtView::Block(
            Seq::new(
                statements@.len(),
                |i: int|
                    if 0 <= i < statements@.len() {
                        stmt_view(statements@[i])
                    } else {
                        StmtView::Block(Seq::empty())
                    },
            ),
        ),
    }
}

/// What a sequence of statements stands for.
pub open spec fn stmt_views(statements: Seq<Stmt>) -> Seq<StmtView> {
    statements.map_values(|statement: Stmt| stmt_view(statement))
}

impl View for Stmt {
    type V = StmtView;

    open spec fn view(&self) -> StmtView {
        stmt_view(*self)
    }
}

/// What each kind of statement stands for.
pub proof fn lemma_stmt_view(statement: Stmt)
    ensures
        match statement {
            Stmt::Expression(expr) => stmt_view(statement) == StmtView::Expression(expr),
            Stmt::If { condition, then_branch, else_branch } => stmt_view(statement)
                == (StmtView::If {
                condition,
                then_branch: Box::new(stmt_view(*then_branch)),
                else_branch: match else_branch {
                    Some(branch) => Some(Box::new(stmt_view(*branch))),
                    None => None,
                },
            }),
            Stmt::Print(expr) => stmt_view(statement) == StmtView::Print(expr),
            Stmt::Var(name, initializer) => stmt_view(statement) == StmtView::Var(
                name,
                initializer,
            ),
            Stmt::While { condition, body } => stmt_view(statement) == (StmtView::While {
                condition,
                body: Box::new(stmt_view(*body)),
            }),
            Stmt::Block(statements) => stmt_view(statement) == StmtView::Block(
                stmt_views(statements@),
            ),
        },
{
    reveal(stmt_view);
    match statement {
        Stmt::Block(statements) => {
            assert(stmt_view(statement)->Block_0 =~= stmt_views(statements@));
        },
        _ => {},
    }
}

} // verus!
