use lox::environment::{Environment, Error};
use lox::token::{Token, TokenType};
use lox::value::Value;

fn name(lexeme: &str) -> Token {
    Token::new(TokenType::Identifier, lexeme.to_owned(), None, 1)
}

fn number_of(environment: &Environment, lexeme: &str) -> Option<u64> {
    match environment.get(&name(lexeme)) {
        Ok(value) => value.number(),
        Err(_) => None,
    }
}

#[test]
fn defined_variable_is_found() {
    let mut environment = Environment::new(None);
    environment.define("a", Value::Number(1));
    assert_eq!(number_of(&environment, "a"), Some(1));
}

#[test]
fn undefined_variable_is_an_error_with_its_name() {
    let environment = Environment::new(None);
    match environment.get(&name("missing")) {
        Err(Error::UndefinedVariable(given)) => assert_eq!(given, "missing"),
        other => panic!("unexpected result: {:?}", other),
    }
}

#[test]
fn defining_again_gives_a_new_value() {
    let mut environment = Environment::new(None);
    environment.define("a", Value::Number(1));
    environment.define("b", Value::Number(5));
    environment.define("a", Value::Number(2));
    assert_eq!(number_of(&environment, "a"), Some(2));
    assert_eq!(number_of(&environment, "b"), Some(5));
}

#[test]
fn assignment_to_an_undeclared_name_is_an_error_and_defines_nothing() {
    let mut environment = Environment::new(None);
    match environment.assign(&name("y"), &Value::Number(1)) {
        Err(Error::UndefinedVariable(given)) => assert_eq!(given, "y"),
        other => panic!("unexpected result: {:?}", other),
    }
    assert!(environment.get(&name("y")).is_err());
}

#[test]
fn assignment_goes_to_the_innermost_scope_that_holds_the_name() {
    let mut global = Environment::new(None);
    global.define("a", Value::Number(1));
    global.define("b", Value::Number(10));
    let mut inner = Environment::new(Some(global));
    inner.define("a", Value::Number(2));
    assert!(inner.assign(&name("a"), &Value::Number(3)).is_ok());
    assert!(inner.assign(&name("b"), &Value::Number(30)).is_ok());
    assert_eq!(number_of(&inner, "a"), Some(3));
    assert_eq!(number_of(&inner, "b"), Some(30));
    inner.leave();
    assert_eq!(number_of(&inner, "a"), Some(1));
    assert_eq!(number_of(&inner, "b"), Some(30));
}

#[test]
fn inner_definition_shadows_and_does_not_leak() {
    let mut environment = Environment::new(None);
    environment.define("x", Value::Number(1));
    environment.enter();
    assert_eq!(number_of(&environment, "x"), Some(1));
    environment.define("x", Value::Number(2));
    environment.define("only_inside", Value::Nil);
    assert_eq!(number_of(&environment, "x"), Some(2));
    environment.leave();
    assert_eq!(number_of(&environment, "x"), Some(1));
    assert!(environment.get(&name("only_inside")).is_err());
}

#[test]
fn global_scope_is_never_left() {
    let mut environment = Environment::new(None);
    environment.define("g", Value::Number(9));
    environment.leave();
    environment.leave();
    assert_eq!(number_of(&environment, "g"), Some(9));
}

#[test]
fn three_scopes_deep() {
    let mut environment = Environment::new(None);
    environment.define("a", Value::Number(1));
    environment.enter();
    environment.define("b", Value::Number(2));
    environment.enter();
    environment.define("c", Value::Number(3));
    assert_eq!(number_of(&environment, "a"), Some(1));
    assert_eq!(number_of(&environment, "b"), Some(2));
    assert_eq!(number_of(&environment, "c"), Some(3));
    assert!(environment.assign(&name("a"), &Value::Number(100)).is_ok());
    environment.leave();
    assert!(environment.get(&name("c")).is_err());
    environment.leave();
    assert!(environment.get(&name("b")).is_err());
    assert_eq!(number_of(&environment, "a"), Some(100));
}
