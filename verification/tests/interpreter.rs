use lox::environment::Error as EnvironmentError;
use lox::expr::Stmt;
use lox::interpreter::{Execution, IError, Interpreter, Printable, Request};
use lox::machine::Reply;
use lox::parser::Parser;
use lox::scanner::scan;
use lox::token::{Token, TokenType};
use lox::value::{Arithmetic, Comparison, Question, VError, Value};

/// What a run has handed to the host.
struct Run {
    printed: Vec<String>,
    errors: Vec<IError>,
    asked: Vec<String>,
}

fn show(number: f64) -> String {
    let text = format!("{:.1}", number);
    if text.ends_with(".0") {
        format!("{}", number)
    } else {
        text
    }
}

fn answer(question: &Question) -> Reply {
    match question {
        Question::Parse(numeral) => Reply::Number(numeral.parse::<f64>().unwrap().to_bits()),
        Question::Arithmetic(operation, left, right) => {
            let (left, right) = (f64::from_bits(*left), f64::from_bits(*right));
            let result = match operation {
                Arithmetic::Add => left + right,
                Arithmetic::Subtract => left - right,
                Arithmetic::Multiply => left * right,
                Arithmetic::Divide => left / right,
            };
            Reply::Number(result.to_bits())
        }
        Question::Negate(number) => Reply::Number((-f64::from_bits(*number)).to_bits()),
        Question::Compare(comparison, left, right) => {
            let (left, right) = (f64::from_bits(*left), f64::from_bits(*right));
            Reply::Bool(match comparison {
                Comparison::Greater => left > right,
                Comparison::GreaterEqual => left >= right,
                Comparison::Less => left < right,
                Comparison::LessEqual => left <= right,
                Comparison::Equal => left == right,
                Comparison::NotEqual => left != right,
            })
        }
    }
}

fn program(source: &str) -> Vec<Stmt> {
    let tokens = scan(source.as_bytes()).expect("the source scans");
    let mut parser = Parser::new(tokens);
    let statements = parser.parse().expect("the source parses");
    assert!(parser.errors().is_empty(), "unexpected errors: {:?}", parser.errors());
    statements
}

fn run_in(interpreter: &mut Interpreter, source: &str) -> Run {
    let statements = program(source);
    let mut execution = Execution::new(&statements);
    let mut run = Run { printed: vec![], errors: vec![], asked: vec![] };
    let mut reply = Reply::Nothing;
    let mut rounds = 0;
    loop {
        rounds += 1;
        assert!(rounds < 100000, "the program does not end");
        match interpreter.interpret(&mut execution, reply, 64) {
            Request::Continue => reply = Reply::Nothing,
            Request::Finished => break,
            Request::Print(Printable::Text(text)) => {
                run.printed.push(text);
                reply = Reply::Nothing;
            }
            Request::Print(Printable::Number(bits)) => {
                run.printed.push(show(f64::from_bits(bits)));
                reply = Reply::Nothing;
            }
            Request::Report(error) => {
                run.errors.push(error);
                reply = Reply::Nothing;
            }
            Request::Ask(question) => {
                run.asked.push(format!("{:?}", question));
                reply = answer(&question);
            }
        }
    }
    run
}

fn run(source: &str) -> Run {
    run_in(&mut Interpreter::new(), source)
}

fn printed(source: &str) -> Vec<String> {
    let run = run(source);
    assert!(run.errors.is_empty(), "unexpected errors: {:?}", run.errors);
    run.printed
}

fn lines(expected: &[&str]) -> Vec<String> {
    expected.iter().map(|line| line.to_string()).collect()
}

#[test]
fn multiplication_comes_before_addition() {
    assert_eq!(printed("print 1 + 2 * 3;"), lines(&["7"]));
    assert_eq!(printed("print (1 + 2) * 3;"), lines(&["9"]));
    assert_eq!(printed("print 10 - 4 / 2;"), lines(&["8"]));
}

#[test]
fn subtraction_goes_from_left_to_right() {
    assert_eq!(printed("print 1 - 2 - 3;"), lines(&["-4"]));
    assert_eq!(printed("print 8 / 4 / 2;"), lines(&["1"]));
}

#[test]
fn strings_are_concatenated() {
    assert_eq!(printed("print \"a\" + \"b\";"), lines(&["ab"]));
    assert_eq!(printed("print \"\" + \"\";"), lines(&[""]));
    assert_eq!(printed("var a = \"x\"; a = a + a + a; print a;"), lines(&["xxx"]));
}

#[test]
fn string_plus_number_is_an_invalid_operation() {
    let run = run("print \"a\" + 1;");
    assert!(run.printed.is_empty());
    assert_eq!(run.errors.len(), 1);
    match &run.errors[0] {
        IError::BinaryOpError {
            source: VError::InvalidOperation { operator, operator_type, value_type },
            token,
        } => {
            assert_eq!(operator, "Binary");
            assert_eq!(operator_type, "+");
            assert_eq!(value_type, "String");
            assert_eq!(*token.token_type(), TokenType::Plus);
            assert_eq!(*token.line(), 1);
        }
        other => panic!("unexpected error: {:?}", other),
    }
}

#[test]
fn inner_shadow_does_not_leak_outward() {
    assert_eq!(printed("var x = 1; { var x = 2; print x; } print x;"), lines(&["2", "1"]));
}

#[test]
fn assignment_inside_a_block_reaches_the_variable_outside() {
    assert_eq!(printed("var x = 1; { x = 2; { x = x + 1; } } print x;"), lines(&["3"]));
}

#[test]
fn assignment_to_an_undeclared_name_is_an_error() {
    let mut interpreter = Interpreter::new();
    let run = run_in(&mut interpreter, "y = 1;");
    assert_eq!(run.errors.len(), 1);
    match &run.errors[0] {
        IError::EnvironmentError { source: EnvironmentError::UndefinedVariable(name), token } => {
            assert_eq!(name, "y");
            assert_eq!(token.lexeme(), "y");
        }
        other => panic!("unexpected error: {:?}", other),
    }
    let y = Token::new(TokenType::Identifier, "y".to_owned(), None, 1);
    assert!(interpreter.environment().get(&y).is_err());
    let again = run_in(&mut interpreter, "print y;");
    assert!(again.printed.is_empty());
    assert!(matches!(again.errors[0], IError::EnvironmentError { .. }));
}

#[test]
fn for_loop_counts_up() {
    assert_eq!(
        printed("for (var i = 0; i < 3; i = i + 1) print i;"),
        lines(&["0", "1", "2"])
    );
}

#[test]
fn for_loop_increment_runs_behind_the_body() {
    assert_eq!(
        printed("var n = 0; for (var i = 0; i < 2; i = i + 1) { n = n + 10; print n + i; }"),
        lines(&["10", "21"])
    );
}

#[test]
fn for_loop_variable_is_gone_behind_the_loop() {
    let run = run("for (var i = 0; i < 1; i = i + 1) {} print i;");
    assert!(run.printed.is_empty());
    assert_eq!(run.errors.len(), 1);
}

#[test]
fn ternary_does_not_evaluate_the_branch_not_taken() {
    let run = run("print true ? 1 : (1/0);");
    assert!(run.errors.is_empty());
    assert_eq!(run.printed, lines(&["1"]));
    assert!(run.asked.iter().all(|question| !question.contains("Divide")));
    let run = run_again_with_side_effects();
    assert_eq!(run, lines(&["2", "0", "5"]));
}

fn run_again_with_side_effects() -> Vec<String> {
    printed("var a = 0; var b = 0; print false ? (a = 1) : (b = 2); print a; print nil ? 4 : 5;")
}

#[test]
fn division_by_zero_is_no_error() {
    assert_eq!(printed("print 1 / 0;"), lines(&["inf"]));
    assert_eq!(printed("print -1 / 0;"), lines(&["-inf"]));
    assert_eq!(printed("print 0 / 0 == 0 / 0;"), lines(&["false"]));
}

#[test]
fn numbers_are_written_with_at_most_one_decimal() {
    assert_eq!(printed("print 2;"), lines(&["2"]));
    assert_eq!(printed("print 2.0;"), lines(&["2"]));
    assert_eq!(printed("print 1.5;"), lines(&["1.5"]));
    assert_eq!(printed("print 10 / 4;"), lines(&["2.5"]));
    assert_eq!(printed("print 45.67;"), lines(&["45.7"]));
    assert_eq!(printed("print -0.5;"), lines(&["-0.5"]));
}

#[test]
fn other_values_are_written_raw() {
    assert_eq!(
        printed("print \"raw\"; print true; print false; print nil;"),
        lines(&["raw", "true", "false", "nil"])
    );
}

#[test]
fn unary_operators() {
    assert_eq!(printed("print -3; print --3; print !true; print !nil; print !0; print !\"\";"),
        lines(&["-3", "3", "false", "true", "false", "false"]));
}

#[test]
fn negation_of_a_string_is_an_invalid_operation() {
    let run = run("print -\"a\";");
    match &run.errors[0] {
        IError::UnaryOpError {
            source: VError::InvalidOperation { operator, operator_type, value_type },
            token,
        } => {
            assert_eq!(operator, "Unary");
            assert_eq!(operator_type, "-");
            assert_eq!(value_type, "String");
            assert_eq!(*token.token_type(), TokenType::Minus);
        }
        other => panic!("unexpected error: {:?}", other),
    }
}

#[test]
fn comparisons_of_numbers() {
    assert_eq!(
        printed("print 1 < 2; print 2 < 1; print 2 <= 2; print 3 > 2; print 2 >= 3;"),
        lines(&["true", "false", "true", "true", "false"])
    );
}

#[test]
fn comparison_of_other_values_is_false() {
    assert_eq!(
        printed("print \"a\" < \"b\"; print nil <= nil; print true > false; print 1 >= \"1\";"),
        lines(&["false", "false", "false", "false"])
    );
}

#[test]
fn equality_of_values() {
    assert_eq!(
        printed(
            "print 1 == 1; print 1 == 2; print \"a\" == \"a\"; print \"a\" != \"b\"; \
             print nil == nil; print nil == false; print 1 == \"1\"; print true != true; \
             print 1 != 2;"
        ),
        lines(&["true", "false", "true", "true", "true", "false", "false", "false", "true"])
    );
}

#[test]
fn logical_operators_give_one_of_their_operands() {
    assert_eq!(
        printed("print 1 or 2; print nil or 2; print 1 and 2; print nil and 2; print false or nil;"),
        lines(&["1", "2", "2", "nil", "nil"])
    );
}

#[test]
fn logical_operators_evaluate_both_operands() {
    assert_eq!(
        printed("var a = 0; var b = 0; true or (a = 1); false and (b = 2); print a; print b;"),
        lines(&["1", "2"])
    );
}

#[test]
fn if_takes_one_branch() {
    assert_eq!(
        printed("if (1 < 2) print \"then\"; else print \"else\"; if (nil) print \"no\"; print 3;"),
        lines(&["then", "3"])
    );
    assert_eq!(printed("if (false) print 1; else print 2;"), lines(&["2"]));
    assert_eq!(printed("if (0) print \"zero is true\";"), lines(&["zero is true"]));
}

#[test]
fn while_runs_as_long_as_its_condition_holds() {
    assert_eq!(
        printed("var i = 3; while (i > 0) { print i; i = i - 1; } print \"done\";"),
        lines(&["3", "2", "1", "done"])
    );
    assert_eq!(printed("while (false) print 1;"), Vec::<String>::new());
}

#[test]
fn variables_are_nil_until_they_are_given_a_value() {
    assert_eq!(printed("var a; print a; a = 1; print a; print a = 2; print a;"),
        lines(&["nil", "1", "2", "2"]));
}

#[test]
fn reading_an_undefined_variable_is_an_error() {
    let run = run("print nothing;");
    match &run.errors[0] {
        IError::EnvironmentError { source: EnvironmentError::UndefinedVariable(name), token } => {
            assert_eq!(name, "nothing");
            assert_eq!(*token.line(), 1);
        }
        other => panic!("unexpected error: {:?}", other),
    }
}

#[test]
fn error_gives_up_one_statement_and_the_next_ones_run() {
    let run = run("print 1; print 2 + nil; print 3;\nprint -nil;\nprint 4;");
    assert_eq!(run.printed, lines(&["1", "3", "4"]));
    assert_eq!(run.errors.len(), 2);
    assert!(matches!(run.errors[0], IError::BinaryOpError { .. }));
    match &run.errors[1] {
        IError::UnaryOpError { token, .. } => assert_eq!(*token.line(), 2),
        other => panic!("unexpected error: {:?}", other),
    }
}

#[test]
fn error_inside_blocks_closes_their_scopes() {
    let run = run("var x = 1; { var x = 2; { var x = 3; print x + nil; print x; } print x; } print x;");
    assert_eq!(run.printed, lines(&["1"]));
    assert_eq!(run.errors.len(), 1);
}

#[test]
fn error_in_a_loop_ends_the_loop() {
    let run = run("var i = 0; while (i < 3) { print i; i = i + nil; } print \"after\";");
    assert_eq!(run.printed, lines(&["0", "after"]));
    assert_eq!(run.errors.len(), 1);
}

#[test]
fn globals_outlast_the_program() {
    let mut interpreter = Interpreter::new();
    assert!(run_in(&mut interpreter, "var total = 40;").errors.is_empty());
    let run = run_in(&mut interpreter, "total = total + 2; print total;");
    assert_eq!(run.printed, lines(&["42"]));
    let value = interpreter
        .environment()
        .get(&Token::new(TokenType::Identifier, "total".to_owned(), None, 1))
        .map(|value| value.number());
    assert_eq!(value.ok(), Some(Some(42.0_f64.to_bits())));
}

#[test]
fn empty_program_is_finished_at_once() {
    let statements = program("");
    let mut interpreter = Interpreter::new();
    let mut execution = Execution::new(&statements);
    assert!(matches!(interpreter.step(&mut execution, Reply::Nothing), Request::Continue));
    assert!(matches!(interpreter.step(&mut execution, Reply::Nothing), Request::Finished));
    assert!(matches!(interpreter.step(&mut execution, Reply::Nothing), Request::Finished));
}

#[test]
fn nothing_is_done_without_a_budget() {
    let statements = program("print nil;");
    let mut interpreter = Interpreter::new();
    let mut execution = Execution::new(&statements);
    assert!(matches!(interpreter.interpret(&mut execution, Reply::Nothing, 0), Request::Continue));
    assert!(matches!(interpreter.interpret(&mut execution, Reply::Nothing, 3), Request::Continue));
    match interpreter.interpret(&mut execution, Reply::Nothing, 100) {
        Request::Print(Printable::Text(text)) => assert_eq!(text, "nil"),
        other => panic!("unexpected request: {:?}", other),
    }
    assert!(matches!(interpreter.interpret(&mut execution, Reply::Nothing, 100), Request::Finished));
}

#[test]
fn endless_loop_uses_up_every_budget() {
    let statements = program("while (true) {}");
    let mut interpreter = Interpreter::new();
    let mut execution = Execution::new(&statements);
    for _ in 0..50 {
        let request = interpreter.interpret(&mut execution, Reply::Nothing, 1000);
        assert!(matches!(request, Request::Continue));
    }
}

#[test]
fn question_is_asked_again_until_it_is_answered() {
    let statements = program("print 1 < 2;");
    let mut interpreter = Interpreter::new();
    let mut execution = Execution::new(&statements);
    let mut request = interpreter.interpret(&mut execution, Reply::Nothing, 100);
    assert!(matches!(request, Request::Ask(Question::Parse(_))));
    assert!(execution.awaiting().is_some());
    request = interpreter.interpret(&mut execution, Reply::Nothing, 100);
    assert!(matches!(request, Request::Ask(Question::Parse(_))));
    request = interpreter.interpret(&mut execution, Reply::Bool(true), 100);
    match &request {
        Request::Ask(Question::Parse(numeral)) => assert_eq!(numeral, "1"),
        other => panic!("unexpected request: {:?}", other),
    }
    request = interpreter.interpret(&mut execution, Reply::Number(1.0_f64.to_bits()), 100);
    match &request {
        Request::Ask(Question::Parse(numeral)) => assert_eq!(numeral, "2"),
        other => panic!("unexpected request: {:?}", other),
    }
    request = interpreter.interpret(&mut execution, Reply::Number(2.0_f64.to_bits()), 100);
    assert!(matches!(request, Request::Ask(Question::Compare(Comparison::Less, _, _))));
    request = interpreter.interpret(&mut execution, Reply::Number(0), 100);
    assert!(matches!(request, Request::Ask(Question::Compare(Comparison::Less, _, _))));
    request = interpreter.interpret(&mut execution, Reply::Bool(true), 100);
    match request {
        Request::Print(Printable::Text(text)) => assert_eq!(text, "true"),
        other => panic!("unexpected request: {:?}", other),
    }
}

#[test]
fn operators_are_applied_by_their_token() {
    let plus = Token::new(TokenType::Plus, "+".to_owned(), None, 3);
    let text = |s: &str| Value::String(s.to_owned());
    match Interpreter::interpret_binary(&plus, &text("a"), &text("b")) {
        Ok(lox::value::Pending::Ready(Value::String(joined))) => assert_eq!(joined, "ab"),
        other => panic!("unexpected outcome: {:?}", other),
    }
    let comma = Token::new(TokenType::Comma, ",".to_owned(), None, 3);
    match Interpreter::interpret_binary(&comma, &Value::Nil, &Value::Nil) {
        Err(IError::UnexpectedError { token }) => assert_eq!(*token.token_type(), TokenType::Comma),
        other => panic!("unexpected outcome: {:?}", other),
    }
    match Interpreter::interpret_unary(&plus, &Value::Nil) {
        Err(IError::UnexpectedError { token }) => assert_eq!(*token.line(), 3),
        other => panic!("unexpected outcome: {:?}", other),
    }
    match Interpreter::interpret_logical(&plus, Value::Nil, Value::Nil) {
        Err(IError::UnexpectedError { token }) => assert_eq!(token.lexeme(), "+"),
        other => panic!("unexpected outcome: {:?}", other),
    }
    let bang = Token::new(TokenType::Bang, "!".to_owned(), None, 1);
    assert!(matches!(
        Interpreter::interpret_unary(&bang, &Value::Nil),
        Ok(lox::value::Pending::Ready(Value::Bool(true)))
    ));
}
