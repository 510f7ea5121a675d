//! A program written out as text that shows how it was parsed.

use crate::expr::{Expr, Stmt};
use crate::token::{Literal, LiteralView, TokenType};
use vstd::prelude::*;
use vstd::string::StringExecFns;

verus! {

/// The name of a kind of token.
pub open spec fn kind_name(kind: TokenType) -> Seq<char> {
    match kind {
        TokenType::LeftParen => "LeftParen"@,
        TokenType::RightParen => "RightParen"@,
        TokenType::LeftBrace => "LeftBrace"@,
        TokenType::RightBrace => "RightBrace"@,
        TokenType::Comma => "Comma"@,
        TokenType::Dot => "Dot"@,
        TokenType::Minus => "Minus"@,
        TokenType::Plus => "Plus"@,
        TokenType::Semicolon => "Semicolon"@,
        TokenType::Colon => "Colon"@,
        TokenType::Slash => "Slash"@,
        TokenType::Star => "Star"@,
        TokenType::QuestionMark => "QuestionMark"@,
        TokenType::Bang => "Bang"@,
        TokenType::BangEqual => "BangEqual"@,
        TokenType::Equal => "Equal"@,
        TokenType::EqualEqual => "EqualEqual"@,
        TokenType::Greater => "Greater"@,
        TokenType::GreaterEqual => "GreaterEqual"@,
        TokenType::Less => "Less"@,
        TokenType::LessEqual => "LessEqual"@,
        TokenType::Identifier => "Identifier"@,
        TokenType::String => "String"@,
        TokenType::Number => "Number"@,
        TokenType::And => "And"@,
        TokenType::Class => "Class"@,
        TokenType::Else => "Else"@,
        TokenType::False => "False"@,
        TokenType::Fun => "Fun"@,
        TokenType::For => "For"@,
        TokenType::If => "If"@,
        TokenType::Nil => "Nil"@,
        TokenType::Or => "Or"@,
        TokenType::Print => "Print"@,
        TokenType::Return => "Return"@,
        TokenType::Super => "Super"@,
        TokenType::This => "This"@,
        TokenType::True => "True"@,
        TokenType::Var => "Var"@,
        TokenType::While => "While"@,
        TokenType::Eof => "Eof"@,
    }
}

/// A literal, written out: a number as its numeral, a string as it is.
pub open spec fn literal_text(literal: LiteralView) -> Seq<char> {
    match literal {
        LiteralView::Number(numeral) => numeral,
        LiteralView::String(text) => text,
        LiteralView::True => "true"@,
        LiteralView::False => "false"@,
        LiteralView::Nil => "nil"@,
    }
}

/// An expression, written out with a pair of brackets around every node
/// that has parts: the operator first, then the operands.
pub open spec fn expr_text(expr: Expr) -> Seq<char>
    decreases expr,
{
    match expr {
        Expr::Literal(literal) => literal_text(literal@),
        Expr::Binary(left, operator, right) => "("@ + operator.lexeme@ + " "@ + expr_text(*left)
            + " "@ + expr_text(*right) + ")"@,
        Expr::Grouping(inner) => "("@ + "group"@ + " "@ + expr_text(*inner) + ")"@,
        Expr::Unary(operator, right) => "("@ + operator.lexeme@ + " "@ + expr_text(*right) + ")"@,
        Expr::Condition(condition, inner_true, inner_false) => "("@ + "cond"@ + " "@ + expr_text(
            *condition,
        ) + " "@ + expr_text(*inner_true) + " "@ + expr_text(*inner_false) + ")"@,
        Expr::Variable(name) => "(var "@ + name.lexeme@ + ")"@,
        Expr::Assign(name, value) => "(assign "@ + ("("@ + name.lexeme@ + " "@ + expr_text(*value)
            + ")"@) + ")"@,
        Expr::Logical { left, operator, right } => "("@ + kind_name(operator.token_type)
            + " (left "@ + expr_text(*left) + ") (right "@ + expr_text(*right) + "))"@,
    }
}

/// The first `count` statements, written out with one blank between each
/// two.
pub open spec fn block_text(statements: Vec<Stmt>, count: nat) -> Seq<char>
    decreases statements, count,
{
    if count == 0 || count > statements@.len() {
        Seq::empty()
    } else if count == 1 {
        stmt_text(statements@[0])
    } else {
        block_text(statements, (count - 1) as nat) + " "@ + stmt_text(statements@[count - 1])
    }
}

/// A statement, written out.
pub open spec fn stmt_text(stmt: Stmt) -> Seq<char>
    decreases stmt, 0nat,
{
    match stmt {
        Stmt::Expression(expr) => expr_text(expr),
        Stmt::Print(expr) => "(print "@ + expr_text(expr) + ")"@,
        Stmt::Var(name, initializer) => match initializer {
            Some(expr) => "(var "@ + name.lexeme@ + " "@ + expr_text(expr) + ")"@,
            None => "(var "@ + name.lexeme@ + " nil)"@,
        },
        Stmt::Block(statements) => "(block ("@ + block_text(statements, statements@.len()) + "))"@,
        Stmt::If { condition, then_branch, else_branch } => match else_branch {
            Some(otherwise) => "(cond "@ + expr_text(condition) + " (then "@ + stmt_text(
                *then_branch,
            ) + ") (else "@ + stmt_text(*otherwise) + "))"@,
            None => "(cond "@ + expr_text(condition) + " (then "@ + stmt_text(*then_branch) + "))"@,
        },
        Stmt::While { condition, body } => "(while (cond "@ + expr_text(condition) + ") (body "@
            + stmt_text(*body) + "))"@,
    }
}

/// The first `count` statements of a program, written out with one line
/// for each.
pub open spec fn program_text(statements: Seq<Stmt>, count: nat) -> Seq<char>
    decreases count,
{
    if count == 0 || count > statements.len() {
        Seq::empty()
    } else if count == 1 {
        stmt_text(statements[0])
    } else {
        program_text(statements, (count - 1) as nat) + "\n"@ + stmt_text(statements[count - 1])
    }
}

/// The texts, one behind the other, with a blank before each.
pub open spec fn operands_text(parts: Seq<String>) -> Seq<char>
    decreases parts.len(),
{
    if parts.len() == 0 {
        Seq::empty()
    } else {
        operands_text(parts.drop_last()) + " "@ + parts.last()@
    }
}

impl TokenType {
    /// The name of the kind.
    pub fn name(&self) -> (name: &'static str)
        ensures
            name@ == kind_name(*self),
    {
        match self {
            TokenType::LeftParen => "LeftParen",
            TokenType::RightParen => "RightParen",
            TokenType::LeftBrace => "LeftBrace",
            TokenType::RightBrace => "RightBrace",
            TokenType::Comma => "Comma",
            TokenType::Dot => "Dot",
            TokenType::Minus => "Minus",
            TokenType::Plus => "Plus",
            TokenType::Semicolon => "Semicolon",
            TokenType::Colon => "Colon",
            TokenType::Slash => "Slash",
            TokenType::Star => "Star",
            TokenType::QuestionMark => "QuestionMark",
            TokenType::Bang => "Bang",
            TokenType::BangEqual => "BangEqual",
            TokenType::Equal => "Equal",
            TokenType::EqualEqual => "EqualEqual",
            TokenType::Greater => "Greater",
            TokenType::GreaterEqual => "GreaterEqual",
            TokenType::Less => "Less",
            TokenType::LessEqual => "LessEqual",
            TokenType::Identifier => "Identifier",
            TokenType::String => "String",
            TokenType::Number => "Number",
            TokenType::And => "And",
            TokenType::Class => "Class",
            TokenType::Else => "Else",
            TokenType::False => "False",
            TokenType::Fun => "Fun",
            TokenType::For => "For",
            TokenType::If => "If",
            TokenType::Nil => "Nil",
            TokenType::Or => "Or",
            TokenType::Print => "Print",
            TokenType::Return => "Return",
            TokenType::Super => "Super",
            TokenType::This => "This",
            TokenType::True => "True",
            TokenType::Var => "Var",
            TokenType::While => "While",
            TokenType::Eof => "Eof",
        }
    }
}

impl Literal {
    /// The literal, written out.
    pub fn text(&self) -> (text: String)
        ensures
            text@ == literal_text(self@),
    {
        match self {
            Literal::Number(numeral) => numeral.clone(),
            Literal::String(text) => text.clone(),
            Literal::True => "true".to_owned(),
            Literal::False => "false".to_owned(),
            Literal::Nil => "nil".to_owned(),
        }
    }
}

/// Writes a program out as text that shows how it was parsed.
pub struct AstPrinter;

impl AstPrinter {
    pub fn new() -> (printer: Self) {
        Self
    }

    /// A node with a name and operands, which have been written out, in a
    /// pair of brackets.
    fn parenthesize(&mut self, name: &str, parts: Vec<String>) -> (text: String)
        ensures
            text@ == "("@ + name@ + operands_text(parts@) + ")"@,
    {
        let mut buf = String::new();
        buf.append("(");
        buf.append(name);
        let ghost head = buf@;
        assert(head =~= "("@ + name@);
        assert(parts@.subrange(0, 0) =~= Seq::<String>::empty());
        let mut i: usize = 0;
        while i < parts.len()
            invariant
                0 <= i <= parts.len(),
                buf@ == head + operands_text(parts@.subrange(0, i as int)),
            decreases parts.len() - i,
        {
            buf.append(" ");
            buf.append(parts[i].as_str());
            i += 1;
            proof {
                let upto = parts@.subrange(0, i as int);
                assert(upto.drop_last() =~= parts@.subrange(0, i - 1));
                assert(buf@ =~= head + operands_text(upto));
            }
        }
        assert(parts@.subrange(0, parts@.len() as int) =~= parts@);
        buf.append(")");
        buf
    }

    /// The statements, written out with one line for each.
    pub fn print(&mut self, stmts: &Vec<Stmt>) -> (text: String)
        ensures
            text@ == program_text(stmts@, stmts@.len()),
    {
        let mut buf = String::new();
        let mut i: usize = 0;
        while i < stmts.len()
            invariant
                0 <= i <= stmts.len(),
                buf@ == program_text(stmts@, i as nat),
            decreases stmts.len() - i,
        {
            if i > 0 {
                buf.append("\n");
            }
            let piece = self.visit_stmt(&stmts[i]);
            buf.append(piece.as_str());
            i += 1;
            assert(buf@ =~= program_text(stmts@, i as nat));
        }
        buf
    }

    /// An expression, written out.
    pub fn visit_expr(&mut self, expr: &Expr) -> (text: String)
        ensures
            text@ == expr_text(*expr),
        decreases expr,
    {
        match expr {
            Expr::Literal(literal) => literal.text(),
            Expr::Binary(lhs, op, rhs) => {
                let parts = vec![self.visit_expr(lhs), self.visit_expr(rhs)];
                proof {
                    lemma_two(parts@[0], parts@[1]);
                    assert(parts@ =~= seq![parts@[0], parts@[1]]);
                }
                let text = self.parenthesize(op.lexeme(), parts);
                assert(text@ =~= expr_text(*expr));
                text
            },
            Expr::Grouping(inner) => {
                let parts = vec![self.visit_expr(inner)];
                proof {
                    lemma_one(parts@[0]);
                    assert(parts@ =~= seq![parts@[0]]);
                }
                let text = self.parenthesize("group", parts);
                assert(text@ =~= expr_text(*expr));
                text
            },
            Expr::Unary(op, rhs) => {
                let parts = vec![self.visit_expr(rhs)];
                proof {
                    lemma_one(parts@[0]);
                    assert(parts@ =~= seq![parts@[0]]);
                }
                let text = self.parenthesize(op.lexeme(), parts);
                assert(text@ =~= expr_text(*expr));
                text
            },
            Expr::Condition(cond, inner_true, inner_false) => {
                let parts = vec![
                    self.visit_expr(cond),
                    self.visit_expr(inner_true),
                    self.visit_expr(inner_false),
                ];
                proof {
                    lemma_three(parts@[0], parts@[1], parts@[2]);
                    assert(parts@ =~= seq![parts@[0], parts@[1], parts@[2]]);
                }
                let text = self.parenthesize("cond", parts);
                assert(text@ =~= expr_text(*expr));
                text
            },
            Expr::Variable(name) => {
                let mut buf = String::new();
                buf.append("(var ");
                buf.append(name.lexeme());
                buf.append(")");
                assert(buf@ =~= expr_text(*expr));
                buf
            },
            Expr::Assign(name, value) => {
                let parts = vec![self.visit_expr(value)];
                proof {
                    lemma_one(parts@[0]);
                    assert(parts@ =~= seq![parts@[0]]);
                }
                let inner = self.parenthesize(name.lexeme(), parts);
                let mut buf = String::new();
                buf.append("(assign ");
                buf.append(inner.as_str());
                buf.append(")");
                assert(buf@ =~= expr_text(*expr));
                buf
            },
            Expr::Logical { left, operator, right } => {
                let mut buf = String::new();
                buf.append("(");
                buf.append(operator.token_type().name());
                buf.append(" (left ");
                let first = self.visit_expr(left);
                buf.append(first.as_str());
                buf.append(") (right ");
                let second = self.visit_expr(right);
                buf.append(second.as_str());
                buf.append("))");
                assert(buf@ =~= expr_text(*expr));
                buf
            },
        }
    }

    /// A statement, written out.
    pub fn visit_stmt(&mut self, stmt: &Stmt) -> (text: String)
        ensures
            text@ == stmt_text(*stmt),
        decreases stmt,
    {
        let mut buf = String::new();
        match stmt {
            Stmt::Expression(expr) => {
                return self.visit_expr(expr);
            },
            Stmt::Print(expr) => {
                buf.append("(print ");
                let piece = self.visit_expr(expr);
                buf.append(piece.as_str());
                buf.append(")");
            },
            Stmt::Var(name, initializer) => {
                buf.append("(var ");
                buf.append(name.lexeme());
                if let Some(i) = initializer {
                    buf.append(" ");
                    let piece = self.visit_expr(i);
                    buf.append(piece.as_str());
                    buf.append(")");
                } else {
                    buf.append(" nil)");
                }
            },
            Stmt::Block(stmts) => {
                buf.append("(block (");
                let ghost head = buf@;
                let mut i: usize = 0;
                while i < stmts.len()
                    invariant
                        0 <= i <= stmts.len(),
                        buf@ == head + block_text(*stmts, i as nat),
                        *stmt == Stmt::Block(*stmts),
                    decreases stmts.len() - i,
                {
                    if i > 0 {
                        buf.append(" ");
                    }
                    proof {
                        vstd::std_specs::vec::axiom_vec_index_decreases(*stmts, i as int);
                        assert(stmt->Block_0 == *stmts);
                        assert(decreases_to!(*stmt => stmt->Block_0));
                        assert(decreases_to!(*stmts => stmts[i as int]));
                        assert(decreases_to!(*stmt => stmts[i as int]));
                    }
                    let piece = self.visit_stmt(&stmts[i]);
                    buf.append(piece.as_str());
                    i += 1;
                    assert(buf@ =~= head + block_text(*stmts, i as nat));
                }
                buf.append("))");
            },
            Stmt::If { condition, then_branch, else_branch } => {
                buf.append("(cond ");
                let piece = self.visit_expr(condition);
                buf.append(piece.as_str());
                buf.append(" (then ");
                let first = self.visit_stmt(then_branch);
                buf.append(first.as_str());
                if let Some(else_branch) = else_branch {
                    buf.append(") (else ");
                    let second = self.visit_stmt(else_branch);
                    buf.append(second.as_str());
                }
                buf.append("))");
            },
            Stmt::While { condition, body } => {
                buf.append("(while (cond ");
                let piece = self.visit_expr(condition);
                buf.append(piece.as_str());
                buf.append(") (body ");
                let inner = self.visit_stmt(body);
                buf.append(inner.as_str());
                buf.append("))");
            },
        }
        assert(buf@ =~= stmt_text(*stmt));
        buf
    }
}

proof fn lemma_one(first: String)
    ensures
        operands_text(seq![first]) == " "@ + first@,
{
    reveal_with_fuel(operands_text, 2);
    assert(seq![first].drop_last() =~= Seq::<String>::empty());
    assert(operands_text(seq![first]) =~= " "@ + first@);
}

proof fn lemma_two(first: String, second: String)
    ensures
        operands_text(seq![first, second]) == " "@ + first@ + " "@ + second@,
{
    lemma_one(first);
    assert(seq![first, second].drop_last() =~= seq![first]);
}

proof fn lemma_three(first: String, second: String, third: String)
    ensures
        operands_text(seq![first, second, third]) == " "@ + first@ + " "@ + second@ + " "@ + third@,
{
    lemma_two(first, second);
    assert(seq![first, second, third].drop_last() =~= seq![first, second]);
}

} // verus!
