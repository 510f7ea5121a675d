//! The values that a program computes, and the operations on them.

use crate::token::{Literal, LiteralView};
use vstd::prelude::*;
use vstd::string::StringExecFns;

verus! {

/// A value that a program computes.
///
/// A number is the bit pattern of a double-precision float. The library
/// carries numbers and never computes on them: what is to be computed, it
/// asks of the host that runs the program (see `Question`).
#[derive(Debug)]
pub enum Value {
    Number(u64),
    String(String),
    Bool(bool),
    Nil,
}

/// What a `Value` stands for.
pub enum ValueView {
    Number(u64),
    String(Seq<char>),
    Bool(bool),
    Nil,
}

impl View for Value {
    type V = ValueView;

    open spec fn view(&self) -> ValueView {
        match self {
            Value::Number(bits) => ValueView::Number(*bits),
            Value::String(text) => ValueView::String(text@),
            Value::Bool(truth) => ValueView::Bool(*truth),
            Value::Nil => ValueView::Nil,
        }
    }
}

impl Clone for Value {
    fn clone(&self) -> (copy: Self)
        ensures
            copy == *self,
    {
        match self {
            Value::Number(bits) => Value::Number(*bits),
            Value::String(text) => Value::String(text.clone()),
            Value::Bool(truth) => Value::Bool(*truth),
            Value::Nil => Value::Nil,
        }
    }
}

/// The four operations of arithmetic.
#[derive(Debug, Clone, Copy, PartialEq, Eq, Structural)]
pub enum Arithmetic {
    Add,
    Subtract,
    Multiply,
    Divide,
}

/// The six comparisons of two numbers.
#[derive(Debug, Clone, Copy, PartialEq, Eq, Structural)]
pub enum Comparison {
    Greater,
    GreaterEqual,
    Less,
    LessEqual,
    Equal,
    NotEqual,
}

/// What the library asks of the host: the one thing it cannot do itself,
/// which is to compute on numbers.
#[derive(Debug)]
pub enum Question {
    /// Which number does the numeral denote? The answer is a number.
    Parse(String),
    /// What does the operation give on the two numbers, the left one
    /// first? The answer is a number.
    Arithmetic(Arithmetic, u64, u64),
    /// What is the number with its sign changed? The answer is a number.
    Negate(u64),
    /// Does the comparison hold of the two numbers, the left one first?
    /// The answer is a truth value.
    Compare(Comparison, u64, u64),
}

/// What a `Question` stands for.
pub enum QuestionView {
    Parse(Seq<char>),
    Arithmetic(Arithmetic, u64, u64),
    Negate(u64),
    Compare(Comparison, u64, u64),
}

impl View for Question {
    type V = QuestionView;

    open spec fn view(&self) -> QuestionView {
        match self {
            Question::Parse(numeral) => QuestionView::Parse(numeral@),
            Question::Arithmetic(operation, left, right) => QuestionView::Arithmetic(
                *operation,
                *left,
                *right,
            ),
            Question::Negate(number) => QuestionView::Negate(*number),
            Question::Compare(comparison, left, right) => QuestionView::Compare(
                *comparison,
                *left,
                *right,
            ),
        }
    }
}

impl Clone for Question {
    fn clone(&self) -> (copy: Self)
        ensures
            copy == *self,
    {
        match self {
            Question::Parse(numeral) => Question::Parse(numeral.clone()),
            Question::Arithmetic(operation, left, right) => Question::Arithmetic(
                *operation,
                *left,
                *right,
            ),
            Question::Negate(number) => Question::Negate(*number),
            Question::Compare(comparison, left, right) => Question::Compare(
                *comparison,
                *left,
                *right,
            ),
        }
    }
}

/// What an operation on values comes to: a value, or a question whose
/// answer is the value.
#[derive(Debug)]
pub enum Pending {
    Ready(Value),
    Ask(Question),
}

/// What a `Pending` stands for.
pub enum PendingView {
    Ready(ValueView),
    Ask(QuestionView),
}

impl View for Pending {
    type V = PendingView;

    open spec fn view(&self) -> PendingView {
        match self {
            Pending::Ready(value) => PendingView::Ready(value@),
            Pending::Ask(question) => PendingView::Ask(question@),
        }
    }
}

/// An operator applied to a value that it is not defined on.
#[derive(Debug)]
pub enum VError {
    InvalidOperation { operator: String, operator_type: String, value_type: String },
}

/// What a `VError` stands for.
pub enum VErrorView {
    InvalidOperation { operator: Seq<char>, operator_type: Seq<char>, value_type: Seq<char> },
}

impl View for VError {
    type V = VErrorView;

    open spec fn view(&self) -> VErrorView {
        match self {
            VError::InvalidOperation {
                operator,
                operator_type,
                value_type,
            } => VErrorView::InvalidOperation {
                operator: operator@,
                operator_type: operator_type@,
                value_type: value_type@,
            },
        }
    }
}

impl Clone for VError {
    fn clone(&self) -> (copy: Self)
        ensures
            copy == *self,
    {
        match self {
            VError::InvalidOperation { operator, operator_type, value_type } => {
                VError::InvalidOperation {
                    operator: operator.clone(),
                    operator_type: operator_type.clone(),
                    value_type: value_type.clone(),
                }
            },
        }
    }
}

/// Whether a value counts as true: every value does, but `false` and `nil`.
pub open spec fn truthy(value: ValueView) -> bool {
    match value {
        ValueView::Bool(truth) => truth,
        ValueView::Nil => false,
        _ => true,
    }
}

/// The name of the type of a value.
pub open spec fn type_of(value: ValueView) -> Seq<char> {
    match value {
        ValueView::Number(_) => "Number"@,
        ValueView::String(_) => "String"@,
        ValueView::Bool(_) => "Bool"@,
        ValueView::Nil => "Nil"@,
    }
}

/// The sign of an operation of arithmetic.
pub open spec fn sign(operation: Arithmetic) -> Seq<char> {
    match operation {
        Arithmetic::Add => "+"@,
        Arithmetic::Subtract => "-"@,
        Arithmetic::Multiply => "*"@,
        Arithmetic::Divide => "/"@,
    }
}

/// The error of an operator of the given arity and sign on a value.
pub open spec fn invalid(arity: Seq<char>, sign: Seq<char>, value: ValueView) -> VErrorView {
    VErrorView::InvalidOperation { operator: arity, operator_type: sign, value_type: type_of(value) }
}

/// An operation of arithmetic on two values. On two numbers it is asked of
/// the host. Addition of two strings joins them. Every other pair is an
/// error, which names the type of the left value.
pub open spec fn arithmetic(operation: Arithmetic, left: ValueView, right: ValueView) -> Result<
    PendingView,
    VErrorView,
> {
    match (left, right) {
        (ValueView::Number(a), ValueView::Number(b)) => Ok(
            PendingView::Ask(QuestionView::Arithmetic(operation, a, b)),
        ),
        (ValueView::String(a), ValueView::String(b)) => if operation == Arithmetic::Add {
            Ok(PendingView::Ready(ValueView::String(a + b)))
        } else {
            Err(invalid("Binary"@, sign(operation), left))
        },
        _ => Err(invalid("Binary"@, sign(operation), left)),
    }
}

/// The change of sign of a value: asked of the host for a number, an error
/// for every other value.
pub open spec fn negation(value: ValueView) -> Result<PendingView, VErrorView> {
    match value {
        ValueView::Number(a) => Ok(PendingView::Ask(QuestionView::Negate(a))),
        _ => Err(invalid("Unary"@, "-"@, value)),
    }
}

/// Whether two values are equal. Two numbers are compared by the host.
/// Two strings, two truth values and two `nil` are equal where they are
/// the same. Values of different types are never equal.
pub open spec fn equality(left: ValueView, right: ValueView) -> PendingView {
    match (left, right) {
        (ValueView::Number(a), ValueView::Number(b)) => PendingView::Ask(
            QuestionView::Compare(Comparison::Equal, a, b),
        ),
        (ValueView::String(a), ValueView::String(b)) => PendingView::Ready(ValueView::Bool(a == b)),
        (ValueView::Bool(a), ValueView::Bool(b)) => PendingView::Ready(ValueView::Bool(a == b)),
        (ValueView::Nil, ValueView::Nil) => PendingView::Ready(ValueView::Bool(true)),
        _ => PendingView::Ready(ValueView::Bool(false)),
    }
}

/// Whether two values are unequal: the contrary of `equality`.
pub open spec fn inequality(left: ValueView, right: ValueView) -> PendingView {
    match equality(left, right) {
        PendingView::Ready(ValueView::Bool(equal)) => PendingView::Ready(ValueView::Bool(!equal)),
        PendingView::Ask(QuestionView::Compare(_, a, b)) => PendingView::Ask(
            QuestionView::Compare(Comparison::NotEqual, a, b),
        ),
        other => other,
    }
}

/// Whether one value stands in an order to another. Two numbers are
/// compared by the host. No other two values are ordered: of them every
/// comparison is false.
pub open spec fn ordering(comparison: Comparison, left: ValueView, right: ValueView) -> PendingView {
    match (left, right) {
        (ValueView::Number(a), ValueView::Number(b)) => PendingView::Ask(
            QuestionView::Compare(comparison, a, b),
        ),
        _ => PendingView::Ready(ValueView::Bool(false)),
    }
}

/// The value of a literal: that of a number is asked of the host.
pub open spec fn literal_value(literal: LiteralView) -> PendingView {
    match literal {
        LiteralView::Number(numeral) => PendingView::Ask(QuestionView::Parse(numeral)),
        LiteralView::String(text) => PendingView::Ready(ValueView::String(text)),
        LiteralView::True => PendingView::Ready(ValueView::Bool(true)),
        LiteralView::False => PendingView::Ready(ValueView::Bool(false)),
        LiteralView::Nil => PendingView::Ready(ValueView::Nil),
    }
}

/// How a value is written out, but for a number: a string as it is, a
/// truth value as `true` or `false`, and `nil` as `nil`.
pub open spec fn text_of(value: ValueView) -> Seq<char> {
    match value {
        ValueView::String(text) => text,
        ValueView::Bool(truth) => if truth {
            "true"@
        } else {
            "false"@
        },
        _ => "nil"@,
    }
}

impl Value {
    /// The number that the value is, if it is one.
    pub fn number(&self) -> (number: Option<u64>)
        ensures
            number == match self@ {
                ValueView::Number(bits) => Some(bits),
                _ => None,
            },
    {
        if let Value::Number(n) = self {
            return Some(*n);
        }
        None
    }

    /// The string that the value is, if it is one.
    pub fn string(&self) -> (string: Option<String>)
        ensures
            match self@ {
                ValueView::String(text) => string is Some && string.unwrap()@ == text,
                _ => string is None,
            },
    {
        if let Value::String(s) = self {
            return Some(s.clone());
        }
        None
    }

    /// Whether the value counts as true.
    pub fn is_true(&self) -> (truth: bool)
        ensures
            truth == truthy(self@),
    {
        match self {
            Value::Number(_) => true,
            Value::String(_) => true,
            Value::Bool(b) => *b,
            Value::Nil => false,
        }
    }

    /// The name of the type of the value.
    pub fn type_of(&self) -> (name: String)
        ensures
            name@ == type_of(self@),
    {
        match self {
            Value::Number(_) => "Number".to_owned(),
            Value::String(_) => "String".to_owned(),
            Value::Bool(_) => "Bool".to_owned(),
            Value::Nil => "Nil".to_owned(),
        }
    }

    /// How the value is written out, unless it is a number, which only the
    /// host can write out.
    pub fn text(&self) -> (text: Option<String>)
        ensures
            match self@ {
                ValueView::Number(_) => text is None,
                other => text is Some && text.unwrap()@ == text_of(other),
            },
    {
        match self {
            Value::Number(_) => None,
            Value::String(s) => Some(s.clone()),
            Value::Bool(b) => if *b {
                Some("true".to_owned())
            } else {
                Some("false".to_owned())
            },
            Value::Nil => Some("nil".to_owned()),
        }
    }

    /// The value of a literal.
    pub fn from(value: &Literal) -> (pending: Pending)
        ensures
            pending@ == literal_value(value@),
    {
        match value {
            Literal::Number(n) => Pending::Ask(Question::Parse(n.clone())),
            Literal::String(s) => Pending::Ready(Value::String(s.clone())),
            Literal::True => Pending::Ready(Value::Bool(true)),
            Literal::False => Pending::Ready(Value::Bool(false)),
            Literal::Nil => Pending::Ready(Value::Nil),
        }
    }

    /// The error of an operator on this value.
    fn invalid_operation(&self, arity: &str, sign: &str) -> (error: VError)
        ensures
            error@ == invalid(arity@, sign@, self@),
    {
        VError::InvalidOperation {
            operator: arity.to_owned(),
            operator_type: sign.to_owned(),
            value_type: self.type_of(),
        }
    }

    /// Whether the two values are equal.
    pub fn eq(&self, other: &Self) -> (pending: Pending)
        ensures
            pending@ == equality(self@, other@),
    {
        match (self, other) {
            (Value::Number(left), Value::Number(right)) => Pending::Ask(
                Question::Compare(Comparison::Equal, *left, *right),
            ),
            (Value::String(left), Value::String(right)) => Pending::Ready(
                Value::Bool(crate::text::same_text(left.as_str(), right.as_str())),
            ),
            (Value::Bool(left), Value::Bool(right)) => Pending::Ready(Value::Bool(*left == *right)),
            (Value::Nil, Value::Nil) => Pending::Ready(Value::Bool(true)),
            (_, _) => Pending::Ready(Value::Bool(false)),
        }
    }

    /// Whether the two values are unequal.
    pub fn ne(&self, other: &Self) -> (pending: Pending)
        ensures
            pending@ == inequality(self@, other@),
    {
        match self.eq(other) {
            Pending::Ready(Value::Bool(equal)) => Pending::Ready(Value::Bool(!equal)),
            Pending::Ask(Question::Compare(_, left, right)) => Pending::Ask(
                Question::Compare(Comparison::NotEqual, left, right),
            ),
            other => other,
        }
    }

    /// Whether this value stands in the given order to the other.
    pub fn partial_cmp(&self, other: &Self, comparison: Comparison) -> (pending: Pending)
        ensures
            pending@ == ordering(comparison, self@, other@),
    {
        if let (Some(left), Some(right)) = (self.number(), other.number()) {
            return Pending::Ask(Question::Compare(comparison, left, right));
        }
        Pending::Ready(Value::Bool(false))
    }

    /// The sum of two numbers, or two strings joined.
    pub fn add(&self, rhs: &Self) -> (result: Result<Pending, VError>)
        ensures
            match result {
                Ok(pending) => arithmetic(Arithmetic::Add, self@, rhs@) == Ok::<
                    PendingView,
                    VErrorView,
                >(pending@),
                Err(error) => arithmetic(Arithmetic::Add, self@, rhs@) == Err::<
                    PendingView,
                    VErrorView,
                >(error@),
            },
    {
        if let (Some(left), Some(right)) = (self.number(), rhs.number()) {
            return Ok(Pending::Ask(Question::Arithmetic(Arithmetic::Add, left, right)));
        }
        if let (Some(left), Some(right)) = (self.string(), rhs.string()) {
            return Ok(Pending::Ready(Value::String(left.concat(right.as_str()))));
        }
        Err(self.invalid_operation("Binary", "+"))
    }

    /// The difference of two numbers.
    pub fn sub(&self, rhs: &Self) -> (result: Result<Pending, VError>)
        ensures
            match result {
                Ok(pending) => arithmetic(Arithmetic::Subtract, self@, rhs@) == Ok::<
                    PendingView,
                    VErrorView,
                >(pending@),
                Err(error) => arithmetic(Arithmetic::Subtract, self@, rhs@) == Err::<
                    PendingView,
                    VErrorView,
                >(error@),
            },
    {
        if let (Some(left), Some(right)) = (self.number(), rhs.number()) {
            return Ok(Pending::Ask(Question::Arithmetic(Arithmetic::Subtract, left, right)));
        }
        Err(self.invalid_operation("Binary", "-"))
    }

    /// The quotient of two numbers.
    pub fn div(&self, rhs: &Self) -> (result: Result<Pending, VError>)
        ensures
            match result {
                Ok(pending) => arithmetic(Arithmetic::Divide, self@, rhs@) == Ok::<
                    PendingView,
                    VErrorView,
                >(pending@),
                Err(error) => arithmetic(Arithmetic::Divide, self@, rhs@) == Err::<
                    PendingView,
                    VErrorView,
                >(error@),
            },
    {
        if let (Some(left), Some(right)) = (self.number(), rhs.number()) {
            return Ok(Pending::Ask(Question::Arithmetic(Arithmetic::Divide, left, right)));
        }
        Err(self.invalid_operation("Binary", "/"))
    }

    /// The product of two numbers.
    pub fn mul(&self, rhs: &Self) -> (result: Result<Pending, VError>)
        ensures
            match result {
                Ok(pending) => arithmetic(Arithmetic::Multiply, self@, rhs@) == Ok::<
                    PendingView,
                    VErrorView,
                >(pending@),
                Err(error) => arithmetic(Arithmetic::Multiply, self@, rhs@) == Err::<
                    PendingView,
                    VErrorView,
                >(error@),
            },
    {
        if let (Some(left), Some(right)) = (self.number(), rhs.number()) {
            return Ok(Pending::Ask(Question::Arithmetic(Arithmetic::Multiply, left, right)));
        }
        Err(self.invalid_operation("Binary", "*"))
    }

    /// The contrary of the truth of the value: `true` of `false` and of
    /// `nil`, `false` of every other value.
    pub fn not(&self) -> (result: Result<Value, VError>)
        ensures
            result is Ok,
            result.unwrap()@ == ValueView::Bool(!truthy(self@)),
    {
        match self {
            Value::Number(_) => Ok(Value::Bool(false)),
            Value::String(_) => Ok(Value::Bool(false)),
            Value::Bool(b) => Ok(Value::Bool(!*b)),
            Value::Nil => Ok(Value::Bool(true)),
        }
    }

    /// The number with its sign changed.
    pub fn neg(&self) -> (result: Result<Pending, VError>)
        ensures
            match result {
                Ok(pending) => negation(self@) == Ok::<PendingView, VErrorView>(pending@),
                Err(error) => negation(self@) == Err::<PendingView, VErrorView>(error@),
            },
    {
        if let Some(left) = self.number() {
            return Ok(Pending::Ask(Question::Negate(left)));
        }
        Err(self.invalid_operation("Unary", "-"))
    }
}

} // verus!
