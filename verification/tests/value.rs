use lox::token::Literal;
use lox::value::{Arithmetic, Comparison, Pending, Question, VError, Value};

fn ready_bool(pending: Pending) -> bool {
    match pending {
        Pending::Ready(Value::Bool(truth)) => truth,
        other => panic!("unexpected outcome: {:?}", other),
    }
}

#[test]
fn everything_counts_as_true_but_false_and_nil() {
    assert!(Value::Number(0).is_true());
    assert!(Value::String(String::new()).is_true());
    assert!(Value::Bool(true).is_true());
    assert!(!Value::Bool(false).is_true());
    assert!(!Value::Nil.is_true());
}

#[test]
fn not_gives_the_contrary_of_the_truth() {
    assert!(matches!(Value::Nil.not(), Ok(Value::Bool(true))));
    assert!(matches!(Value::Bool(false).not(), Ok(Value::Bool(true))));
    assert!(matches!(Value::Bool(true).not(), Ok(Value::Bool(false))));
    assert!(matches!(Value::Number(0).not(), Ok(Value::Bool(false))));
    assert!(matches!(Value::String("".to_owned()).not(), Ok(Value::Bool(false))));
}

#[test]
fn strings_are_joined_by_addition() {
    match Value::String("a".to_owned()).add(&Value::String("b".to_owned())) {
        Ok(Pending::Ready(Value::String(text))) => assert_eq!(text, "ab"),
        other => panic!("unexpected outcome: {:?}", other),
    }
}

#[test]
fn arithmetic_on_numbers_is_asked_of_the_host() {
    let left = Value::Number(11);
    let right = Value::Number(22);
    assert!(matches!(
        left.add(&right),
        Ok(Pending::Ask(Question::Arithmetic(Arithmetic::Add, 11, 22)))
    ));
    assert!(matches!(
        left.sub(&right),
        Ok(Pending::Ask(Question::Arithmetic(Arithmetic::Subtract, 11, 22)))
    ));
    assert!(matches!(
        left.mul(&right),
        Ok(Pending::Ask(Question::Arithmetic(Arithmetic::Multiply, 11, 22)))
    ));
    assert!(matches!(
        left.div(&right),
        Ok(Pending::Ask(Question::Arithmetic(Arithmetic::Divide, 11, 22)))
    ));
    assert!(matches!(left.neg(), Ok(Pending::Ask(Question::Negate(11)))));
}

fn invalid(result: Result<Pending, VError>) -> (String, String, String) {
    match result {
        Err(VError::InvalidOperation { operator, operator_type, value_type }) => {
            (operator, operator_type, value_type)
        }
        other => panic!("unexpected outcome: {:?}", other),
    }
}

fn triple(a: &str, b: &str, c: &str) -> (String, String, String) {
    (a.to_owned(), b.to_owned(), c.to_owned())
}

#[test]
fn operators_on_other_values_are_invalid() {
    let text = Value::String("a".to_owned());
    let one = Value::Number(1);
    assert_eq!(invalid(text.add(&one)), triple("Binary", "+", "String"));
    assert_eq!(invalid(one.add(&text)), triple("Binary", "+", "Number"));
    assert_eq!(invalid(text.sub(&text)), triple("Binary", "-", "String"));
    assert_eq!(invalid(Value::Nil.mul(&one)), triple("Binary", "*", "Nil"));
    assert_eq!(invalid(Value::Bool(true).div(&one)), triple("Binary", "/", "Bool"));
    assert_eq!(invalid(text.neg()), triple("Unary", "-", "String"));
    assert_eq!(invalid(Value::Nil.neg()), triple("Unary", "-", "Nil"));
}

#[test]
fn equality_is_by_type_and_value() {
    let text = |s: &str| Value::String(s.to_owned());
    assert!(ready_bool(text("a").eq(&text("a"))));
    assert!(!ready_bool(text("a").eq(&text("b"))));
    assert!(ready_bool(Value::Bool(true).eq(&Value::Bool(true))));
    assert!(!ready_bool(Value::Bool(true).eq(&Value::Bool(false))));
    assert!(ready_bool(Value::Nil.eq(&Value::Nil)));
    assert!(!ready_bool(Value::Nil.eq(&Value::Bool(false))));
    assert!(!ready_bool(Value::Number(0).eq(&Value::Nil)));
    assert!(!ready_bool(text("1").eq(&Value::Number(1))));
    assert!(matches!(
        Value::Number(3).eq(&Value::Number(4)),
        Pending::Ask(Question::Compare(Comparison::Equal, 3, 4))
    ));
}

#[test]
fn inequality_is_the_contrary_of_equality() {
    let text = |s: &str| Value::String(s.to_owned());
    assert!(!ready_bool(text("a").ne(&text("a"))));
    assert!(ready_bool(text("a").ne(&text("b"))));
    assert!(ready_bool(Value::Nil.ne(&Value::Number(0))));
    assert!(!ready_bool(Value::Nil.ne(&Value::Nil)));
    assert!(matches!(
        Value::Number(3).ne(&Value::Number(4)),
        Pending::Ask(Question::Compare(Comparison::NotEqual, 3, 4))
    ));
}

#[test]
fn only_numbers_are_ordered() {
    assert!(matches!(
        Value::Number(3).partial_cmp(&Value::Number(4), Comparison::Less),
        Pending::Ask(Question::Compare(Comparison::Less, 3, 4))
    ));
    let text = Value::String("a".to_owned());
    assert!(!ready_bool(text.partial_cmp(&text, Comparison::LessEqual)));
    assert!(!ready_bool(Value::Nil.partial_cmp(&Value::Number(1), Comparison::Greater)));
    assert!(!ready_bool(Value::Number(1).partial_cmp(&Value::Bool(true), Comparison::GreaterEqual)));
}

#[test]
fn literals_become_values() {
    assert!(matches!(Value::from(&Literal::True), Pending::Ready(Value::Bool(true))));
    assert!(matches!(Value::from(&Literal::False), Pending::Ready(Value::Bool(false))));
    assert!(matches!(Value::from(&Literal::Nil), Pending::Ready(Value::Nil)));
    match Value::from(&Literal::String("s".to_owned())) {
        Pending::Ready(Value::String(text)) => assert_eq!(text, "s"),
        other => panic!("unexpected outcome: {:?}", other),
    }
    match Value::from(&Literal::Number("1.5".to_owned())) {
        Pending::Ask(Question::Parse(numeral)) => assert_eq!(numeral, "1.5"),
        other => panic!("unexpected outcome: {:?}", other),
    }
}

#[test]
fn values_are_written_out_but_for_numbers() {
    assert_eq!(Value::Nil.text(), Some("nil".to_owned()));
    assert_eq!(Value::Bool(true).text(), Some("true".to_owned()));
    assert_eq!(Value::Bool(false).text(), Some("false".to_owned()));
    assert_eq!(Value::String("raw \"text\"".to_owned()).text(), Some("raw \"text\"".to_owned()));
    assert_eq!(Value::Number(5).text(), None);
    assert_eq!(Value::Number(5).number(), Some(5));
    assert_eq!(Value::Nil.number(), None);
    assert_eq!(Value::String("s".to_owned()).string(), Some("s".to_owned()));
    assert_eq!(Value::Number(5).string(), None);
    assert_eq!(Value::Number(5).type_of(), "Number");
}
