use lox::expr::{Expr, Stmt};
use lox::printer::AstPrinter;
use lox::token::{Literal, Token, TokenType};

#[test]
fn ast_printer() {
    let expression = Expr::Binary(
        Box::new(Expr::Unary(
            Token::new(TokenType::Minus, "-".to_owned(), None, 1),
            Box::new(Expr::Literal(Literal::Number(format!("{}", 123.0)))),
        )),
        Token::new(TokenType::Star, "*".to_owned(), None, 1),
        Box::new(Expr::Grouping(Box::new(Expr::Literal(Literal::Number(
            format!("{}", 45.67),
        ))))),
    );

    let pretty = AstPrinter::new().print(&vec![Stmt::Expression(expression)]);

    assert_eq!("(* (- 123) (group 45.67))", pretty)
}

fn name(lexeme: &str) -> Token {
    Token::new(TokenType::Identifier, lexeme.to_owned(), None, 1)
}

#[test]
fn literals_are_written_as_they_read() {
    let mut printer = AstPrinter::new();
    assert_eq!(printer.visit_expr(&Expr::Literal(Literal::True)), "true");
    assert_eq!(printer.visit_expr(&Expr::Literal(Literal::False)), "false");
    assert_eq!(printer.visit_expr(&Expr::Literal(Literal::Nil)), "nil");
    assert_eq!(printer.visit_expr(&Expr::Literal(Literal::String("a b".to_owned()))), "a b");
    assert_eq!(printer.visit_expr(&Expr::Literal(Literal::Number("1.50".to_owned()))), "1.50");
}

#[test]
fn variables_assignments_and_choices() {
    let mut printer = AstPrinter::new();
    assert_eq!(printer.visit_expr(&Expr::Variable(name("x"))), "(var x)");
    let assign = Expr::Assign(name("x"), Box::new(Expr::Literal(Literal::Nil)));
    assert_eq!(printer.visit_expr(&assign), "(assign (x nil))");
    let choice = Expr::Condition(
        Box::new(Expr::Variable(name("c"))),
        Box::new(Expr::Literal(Literal::True)),
        Box::new(Expr::Literal(Literal::False)),
    );
    assert_eq!(printer.visit_expr(&choice), "(cond (var c) true false)");
    let either = Expr::Logical {
        left: Box::new(Expr::Variable(name("a"))),
        operator: Token::new(TokenType::Or, "or".to_owned(), None, 1),
        right: Box::new(Expr::Variable(name("b"))),
    };
    assert_eq!(printer.visit_expr(&either), "(Or (left (var a)) (right (var b)))");
}

#[test]
fn statements_of_every_kind() {
    let mut printer = AstPrinter::new();
    let one = || Expr::Literal(Literal::Number("1".to_owned()));
    assert_eq!(printer.visit_stmt(&Stmt::Print(one())), "(print 1)");
    assert_eq!(printer.visit_stmt(&Stmt::Var(name("x"), Some(one()))), "(var x 1)");
    assert_eq!(printer.visit_stmt(&Stmt::Var(name("x"), None)), "(var x nil)");
    assert_eq!(printer.visit_stmt(&Stmt::Block(vec![])), "(block ())");
    assert_eq!(
        printer.visit_stmt(&Stmt::Block(vec![Stmt::Print(one()), Stmt::Expression(one())])),
        "(block ((print 1) 1))"
    );
    assert_eq!(
        printer.visit_stmt(&Stmt::If {
            condition: one(),
            then_branch: Box::new(Stmt::Print(one())),
            else_branch: None,
        }),
        "(cond 1 (then (print 1)))"
    );
    assert_eq!(
        printer.visit_stmt(&Stmt::If {
            condition: one(),
            then_branch: Box::new(Stmt::Print(one())),
            else_branch: Some(Box::new(Stmt::Expression(one()))),
        }),
        "(cond 1 (then (print 1)) (else 1))"
    );
    assert_eq!(
        printer.visit_stmt(&Stmt::While { condition: one(), body: Box::new(Stmt::Print(one())) }),
        "(while (cond 1) (body (print 1)))"
    );
}

#[test]
fn program_has_one_line_for_each_statement() {
    let mut printer = AstPrinter::new();
    assert_eq!(printer.print(&vec![]), "");
    let statements = vec![
        Stmt::Var(name("a"), None),
        Stmt::Print(Expr::Variable(name("a"))),
        Stmt::Expression(Expr::Literal(Literal::Nil)),
    ];
    assert_eq!(printer.print(&statements), "(var a nil)\n(print (var a))\nnil");
}

#[test]
fn kinds_have_their_names() {
    assert_eq!(TokenType::LeftParen.name(), "LeftParen");
    assert_eq!(TokenType::QuestionMark.name(), "QuestionMark");
    assert_eq!(TokenType::And.name(), "And");
    assert_eq!(TokenType::Eof.name(), "Eof");
}
