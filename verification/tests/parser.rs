use lox::expr::Stmt;
use lox::parser::{Error, Parser};
use lox::printer::AstPrinter;
use lox::scanner::scan;
use lox::token::{Token, TokenType};

fn tokens_of(source: &str) -> Vec<Token> {
    scan(source.as_bytes()).expect("the source scans")
}

fn parsed(source: &str) -> (Result<Vec<Stmt>, Error>, Vec<Error>) {
    let mut parser = Parser::new(tokens_of(source));
    let result = parser.parse();
    let errors = parser.errors().iter().map(|error| error.clone()).collect();
    (result, errors)
}

fn tree(source: &str) -> String {
    let (result, errors) = parsed(source);
    assert!(errors.is_empty(), "unexpected errors: {:?}", errors);
    AstPrinter::new().print(&result.expect("the source parses"))
}

#[test]
fn empty_program() {
    let (result, errors) = parsed("");
    assert_eq!(result.unwrap().len(), 0);
    assert!(errors.is_empty());
}

#[test]
fn multiplication_binds_tighter_than_addition() {
    assert_eq!(tree("1 + 2 * 3;"), "(+ 1 (* 2 3))");
    assert_eq!(tree("1 * 2 + 3;"), "(+ (* 1 2) 3)");
    assert_eq!(tree("1 / 2 - 3 * 4;"), "(- (/ 1 2) (* 3 4))");
}

#[test]
fn subtraction_associates_to_the_left() {
    assert_eq!(tree("1 - 2 - 3;"), "(- (- 1 2) 3)");
    assert_eq!(tree("8 / 4 / 2;"), "(/ (/ 8 4) 2)");
    assert_eq!(tree("1 + 2 - 3 + 4;"), "(+ (- (+ 1 2) 3) 4)");
}

#[test]
fn comparison_binds_tighter_than_equality() {
    assert_eq!(tree("1 < 2 == 3 >= 4;"), "(== (< 1 2) (>= 3 4))");
    assert_eq!(tree("1 + 1 <= 2 != false;"), "(!= (<= (+ 1 1) 2) false)");
    assert_eq!(tree("1 > 2 > 3;"), "(> (> 1 2) 3)");
}

#[test]
fn unary_operators_nest_to_the_right() {
    assert_eq!(tree("-1;"), "(- 1)");
    assert_eq!(tree("!!true;"), "(! (! true))");
    assert_eq!(tree("-a * !b;"), "(* (- (var a)) (! (var b)))");
    assert_eq!(tree("1 - -2;"), "(- 1 (- 2))");
}

#[test]
fn grouping_overrides_precedence() {
    assert_eq!(tree("(1 + 2) * 3;"), "(* (group (+ 1 2)) 3)");
    assert_eq!(tree("((nil));"), "(group (group nil))");
}

#[test]
fn and_binds_tighter_than_or() {
    assert_eq!(
        tree("a or b and c;"),
        "(Or (left (var a)) (right (And (left (var b)) (right (var c)))))"
    );
    assert_eq!(
        tree("a and b or c;"),
        "(Or (left (And (left (var a)) (right (var b)))) (right (var c)))"
    );
    assert_eq!(
        tree("a or b or c;"),
        "(Or (left (Or (left (var a)) (right (var b)))) (right (var c)))"
    );
}

#[test]
fn ternary_stands_between_equality_and_the_logical_operators() {
    assert_eq!(tree("true ? 1 : (1/0);"), "(cond true 1 (group (/ 1 0)))");
    assert_eq!(tree("a == b ? 1 : 2;"), "(cond (== (var a) (var b)) 1 2)");
    assert_eq!(
        tree("a and b ? 1 : 2;"),
        "(And (left (var a)) (right (cond (var b) 1 2)))"
    );
    assert_eq!(tree("a ? 1 : 2 ? 3 : 4;"), "(cond (cond (var a) 1 2) 3 4)");
}

#[test]
fn assignment_associates_to_the_right() {
    assert_eq!(tree("a = 1;"), "(assign (a 1))");
    assert_eq!(tree("a = b = 3;"), "(assign (a (assign (b 3))))");
    assert_eq!(tree("a = 1 or 2;"), "(assign (a (Or (left 1) (right 2))))");
}

#[test]
fn strings_and_keyword_literals() {
    assert_eq!(tree("\"a\" + \"b\";"), "(+ a b)");
    assert_eq!(tree("nil == false;"), "(== nil false)");
}

#[test]
fn declarations_and_statements() {
    assert_eq!(tree("var x = 1; var y;"), "(var x 1)\n(var y nil)");
    assert_eq!(tree("print 1 + 2;"), "(print (+ 1 2))");
    assert_eq!(tree("{ var x = 2; print x; }"), "(block ((var x 2) (print (var x))))");
    assert_eq!(tree("{}"), "(block ())");
    assert_eq!(tree("{{}}"), "(block ((block ())))");
}

#[test]
fn if_with_and_without_else() {
    assert_eq!(tree("if (a) print 1;"), "(cond (var a) (then (print 1)))");
    assert_eq!(
        tree("if (a) print 1; else print 2;"),
        "(cond (var a) (then (print 1)) (else (print 2)))"
    );
    assert_eq!(
        tree("if (a) if (b) 1; else 2;"),
        "(cond (var a) (then (cond (var b) (then 1) (else 2))))"
    );
}

#[test]
fn while_loop() {
    assert_eq!(
        tree("while (a) a = a - 1;"),
        "(while (cond (var a)) (body (assign (a (- (var a) 1)))))"
    );
}

#[test]
fn for_loop_is_a_while_loop_in_a_block() {
    assert_eq!(
        tree("for (var i = 0; i < 3; i = i + 1) print i;"),
        "(block ((var i 0) (while (cond (< (var i) 3)) (body (block ((print (var i)) (assign (i (+ (var i) 1)))))))))"
    );
}

#[test]
fn for_loop_without_clauses_runs_while_true() {
    assert_eq!(tree("for (;;) print 1;"), "(while (cond true) (body (print 1)))");
    assert_eq!(
        tree("for (i = 0;;) print 1;"),
        "(block ((assign (i 0)) (while (cond true) (body (print 1)))))"
    );
    assert_eq!(tree("for (; a;) print 1;"), "(while (cond (var a)) (body (print 1)))");
    assert_eq!(
        tree("for (;; a = 1) print 1;"),
        "(while (cond true) (body (block ((print 1) (assign (a 1))))))"
    );
}

#[test]
fn statement_with_an_error_is_left_out() {
    let (result, errors) = parsed("print ; print 2;");
    assert_eq!(AstPrinter::new().print(&result.unwrap()), "(print 2)");
    assert_eq!(errors.len(), 1);
    match &errors[0] {
        Error::UnexpectedToken(token, line) => {
            assert_eq!(*token.token_type(), TokenType::Semicolon);
            assert_eq!(*line, 1);
        }
        other => panic!("unexpected error: {:?}", other),
    }
}

#[test]
fn every_error_is_noted() {
    let (result, errors) = parsed("var = 1;\nprint 1;\n(2;\nprint 3;");
    assert_eq!(AstPrinter::new().print(&result.unwrap()), "(print 1)\n(print 3)");
    assert_eq!(errors.len(), 2);
    match &errors[0] {
        Error::MismatchedToken { line, expected, actual, message } => {
            assert_eq!(*line, 1);
            assert_eq!(*expected, TokenType::Identifier);
            assert_eq!(*actual, TokenType::Equal);
            assert_eq!(message, "Expect variable name.");
        }
        other => panic!("unexpected error: {:?}", other),
    }
    match &errors[1] {
        Error::MismatchedToken { line, expected, actual, message } => {
            assert_eq!(*line, 3);
            assert_eq!(*expected, TokenType::RightParen);
            assert_eq!(*actual, TokenType::Semicolon);
            assert_eq!(message, "Expect ')' after expression.");
        }
        other => panic!("unexpected error: {:?}", other),
    }
}

#[test]
fn recovery_goes_on_before_a_keyword() {
    let (result, errors) = parsed("1 + * 2 var x = 3;");
    assert_eq!(AstPrinter::new().print(&result.unwrap()), "(var x 3)");
    assert_eq!(errors.len(), 1);
    assert!(matches!(errors[0], Error::UnexpectedToken(_, _)));
}

#[test]
fn missing_semicolon_at_the_end_finds_no_boundary() {
    let (result, errors) = parsed("print 1");
    assert!(matches!(result, Err(Error::SyncBoundaryNotFound)));
    assert_eq!(errors.len(), 1);
    match &errors[0] {
        Error::MismatchedToken { line, expected, actual, message } => {
            assert_eq!(*line, 0);
            assert_eq!(*expected, TokenType::Semicolon);
            assert_eq!(*actual, TokenType::Eof);
            assert_eq!(message, "Expect ';' after value.");
        }
        other => panic!("unexpected error: {:?}", other),
    }
}

#[test]
fn only_a_variable_can_be_assigned_to() {
    let (result, errors) = parsed("1 = 2; print 3;");
    assert_eq!(AstPrinter::new().print(&result.unwrap()), "(print 3)");
    assert_eq!(errors.len(), 1);
    match &errors[0] {
        Error::InvalidAssignmentTarget(token) => {
            assert_eq!(*token.token_type(), TokenType::Equal)
        }
        other => panic!("unexpected error: {:?}", other),
    }
    let (result, errors) = parsed("(a) = 2; print 3;");
    assert!(result.is_ok());
    assert!(matches!(errors[0], Error::InvalidAssignmentTarget(_)));
}

#[test]
fn unclosed_block_is_an_error() {
    let (result, errors) = parsed("{ print 1;");
    assert!(matches!(result, Err(Error::SyncBoundaryNotFound)));
    match &errors[0] {
        Error::MismatchedToken { expected, actual, message, .. } => {
            assert_eq!(*expected, TokenType::RightBrace);
            assert_eq!(*actual, TokenType::Eof);
            assert_eq!(message, "Expect '}' after block.");
        }
        other => panic!("unexpected error: {:?}", other),
    }
}

#[test]
fn messages_of_the_statements() {
    let message_of = |source: &str| -> String {
        let (_, errors) = parsed(source);
        match &errors[0] {
            Error::MismatchedToken { message, .. } => message.clone(),
            other => panic!("unexpected error: {:?}", other),
        }
    };
    assert_eq!(message_of("if a) 1;"), "Expect '(' after 'if'.");
    assert_eq!(message_of("if (a 1;"), "Expect ')' after if condition.");
    assert_eq!(message_of("while a) 1;"), "Expect '(' after 'while'.");
    assert_eq!(message_of("while (a 1;"), "Expect ')' after condition.");
    assert_eq!(message_of("for a;;) 1;"), "Expect '(' after 'for'.");
    assert_eq!(message_of("for (;a) 1;"), "Expect ';' after loop condition.");
    assert_eq!(message_of("for (;;a; 1;"), "Expect ')' after for clauses.");
    assert_eq!(message_of("var a = 1 print a;"), "Expect ';' after variable declaration.");
    assert_eq!(message_of("a ? 1 2;"), "Expect ':' after expression");
}

#[test]
fn tokens_without_the_closing_token_run_out() {
    let mut tokens = tokens_of("1");
    tokens.pop();
    let mut parser = Parser::new(tokens);
    let result = parser.parse();
    assert!(matches!(result, Err(Error::SyncBoundaryNotFound)));
    assert!(matches!(parser.errors()[0], Error::OutOfBounds(1)));
}

#[test]
fn number_token_without_a_literal_is_an_error() {
    let tokens = vec![
        Token::new(TokenType::Number, "1".to_owned(), None, 1),
        Token::new(TokenType::Semicolon, ";".to_owned(), None, 1),
        Token::new(TokenType::Print, "print".to_owned(), None, 1),
        Token::new(TokenType::Nil, "nil".to_owned(), None, 1),
        Token::new(TokenType::Semicolon, ";".to_owned(), None, 1),
        Token::new(TokenType::Eof, String::new(), None, 0),
    ];
    let mut parser = Parser::new(tokens);
    let result = parser.parse();
    assert_eq!(AstPrinter::new().print(&result.unwrap()), "(print nil)");
    match &parser.errors()[0] {
        Error::EmptyLiteral(token) => assert_eq!(token.lexeme(), "1"),
        other => panic!("unexpected error: {:?}", other),
    }
}

#[test]
fn parsing_again_at_the_end_gives_nothing_more() {
    let mut parser = Parser::new(tokens_of("print 1;"));
    assert_eq!(parser.parse().unwrap().len(), 1);
    assert_eq!(parser.parse().unwrap().len(), 0);
}

#[test]
fn semicolon_right_before_the_end_is_a_boundary() {
    let (result, errors) = parsed("1 + ;");
    assert_eq!(result.expect("recovery finds the semicolon").len(), 0);
    assert_eq!(errors.len(), 1);
    match &errors[0] {
        Error::UnexpectedToken(token, line) => {
            assert_eq!(*token.token_type(), TokenType::Semicolon);
            assert_eq!(*line, 1);
        }
        other => panic!("unexpected error: {:?}", other),
    }
}

#[test]
fn error_in_the_last_statement_keeps_the_statements_before_it() {
    let (result, errors) = parsed("print 1; var = 2; print 3; 1 = 2;");
    assert_eq!(AstPrinter::new().print(&result.unwrap()), "(print 1)\n(print 3)");
    assert_eq!(errors.len(), 2);
    assert!(matches!(errors[0], Error::MismatchedToken { .. }));
    assert!(matches!(errors[1], Error::InvalidAssignmentTarget(_)));
}

#[test]
fn error_at_the_semicolon_itself_finds_the_place_behind_it() {
    let (result, errors) = parsed("print ;");
    assert_eq!(result.unwrap().len(), 0);
    assert_eq!(errors.len(), 1);
    let (result, errors) = parsed("(1 ;");
    assert_eq!(result.unwrap().len(), 0);
    assert!(matches!(errors[0], Error::MismatchedToken { .. }));
}

#[test]
fn error_without_a_semicolon_or_keyword_behind_it_finds_no_boundary() {
    let (result, errors) = parsed("print 1; 2 +");
    assert!(matches!(result, Err(Error::SyncBoundaryNotFound)));
    assert_eq!(errors.len(), 1);
    let (result, errors) = parsed("1 + ; 2 * ");
    assert!(matches!(result, Err(Error::SyncBoundaryNotFound)));
    assert_eq!(errors.len(), 2);
}

#[test]
fn semicolon_at_the_end_of_tokens_without_the_closing_token() {
    let mut tokens = tokens_of("1 + ;");
    tokens.pop();
    let mut parser = Parser::new(tokens);
    assert_eq!(parser.parse().expect("the semicolon is a boundary").len(), 0);
    assert_eq!(parser.errors().len(), 1);
}

#[test]
fn productions_can_be_parsed_by_themselves() {
    let mut parser = Parser::new(tokens_of("1 - 2 - 3 < 4"));
    let difference = parser.term().expect("a term stands first");
    assert_eq!(AstPrinter::new().visit_expr(&difference), "(- (- 1 2) 3)");
    let mut parser = Parser::new(tokens_of("1 - 2 - 3 < 4"));
    let comparison = parser.expression().expect("an expression stands first");
    assert_eq!(AstPrinter::new().visit_expr(&comparison), "(< (- (- 1 2) 3) 4)");
    let mut parser = Parser::new(tokens_of("1 * 2 / 3 * 4 + 5"));
    let product = parser.factor().expect("a factor stands first");
    assert_eq!(AstPrinter::new().visit_expr(&product), "(* (/ (* 1 2) 3) 4)");
    let mut parser = Parser::new(tokens_of("{ var a; } print a;"));
    let block = parser.statement().expect("a block stands first");
    assert_eq!(AstPrinter::new().visit_stmt(&block), "(block ((var a nil)))");
    let print = parser.declaration().expect("a statement follows");
    assert_eq!(AstPrinter::new().visit_stmt(&print), "(print (var a))");
}

#[test]
fn synchronize_goes_to_the_least_boundary_behind_the_cursor() {
    // The cursor stands at the first token; the place behind the semicolon is index 3.
    let mut parser = Parser::new(tokens_of("1 2 ; 3 print 4;"));
    assert!(parser.synchronize().is_ok());
    let next = parser.expression().expect("an expression follows the semicolon");
    assert_eq!(AstPrinter::new().visit_expr(&next), "3");
    // From `3` on, the next boundary is before `print`.
    let mut parser = Parser::new(tokens_of("3 4 print 5;"));
    assert!(parser.synchronize().is_ok());
    let next = parser.statement().expect("a print statement follows");
    assert_eq!(AstPrinter::new().visit_stmt(&next), "(print 5)");
    // A semicolon is a boundary where it is the last token before the end.
    let mut parser = Parser::new(tokens_of("1 2 ;"));
    assert!(parser.synchronize().is_ok());
    assert_eq!(parser.parse().unwrap().len(), 0);
    // The token under the cursor is given up even where it is the semicolon.
    let mut parser = Parser::new(tokens_of("; 1"));
    assert!(parser.synchronize().is_ok());
    // With neither behind the cursor, there is no boundary.
    let mut parser = Parser::new(tokens_of("1 2 3"));
    assert!(matches!(parser.synchronize(), Err(Error::SyncBoundaryNotFound)));
    let mut parser = Parser::new(tokens_of(""));
    assert!(matches!(parser.synchronize(), Err(Error::SyncBoundaryNotFound)));
}
