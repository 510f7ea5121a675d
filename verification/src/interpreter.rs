//! The interpreter: it runs a program step by step, and hands the host what is
//! to be written out, reported or computed on numbers.

use crate::environment::{self, Environment};
use crate::expr::{Expr, Stmt};
use crate::machine::{
    balanced, binary_outcome, concluded, dropped, evaluate, execute, failed, fits, gives, go,
    lemma_unwound, logical_outcome, run, settled, step, steps, takes, unary_outcome, unwound,
    with, within, Frame, IErrorView, Machine, PrintableView, Reply, RequestView, Transition,
};
use crate::token::{Token, TokenType};
use crate::value::{Comparison, Pending, Question, VError, Value, ValueView};
use vstd::prelude::*;

verus! {

/// What can go wrong while a program runs. Each error holds the token at
/// which it arose.
#[derive(Debug)]
pub enum IError {
    UnaryOpError { source: VError, token: Token },
    BinaryOpError { source: VError, token: Token },
    EnvironmentError { source: environment::Error, token: Token },
    UnexpectedError { token: Token },
}

impl View for IError {
    type V = IErrorView;

    open spec fn view(&self) -> IErrorView {
        match self {
            IError::UnaryOpError { source, token } => IErrorView::UnaryOpError {
                source: source@,
                token: *token,
            },
            IError::BinaryOpError { source, token } => IErrorView::BinaryOpError {
                source: source@,
                token: *token,
            },
            IError::EnvironmentError { source, token } => IErrorView::EnvironmentError {
                source: source@,
                token: *token,
            },
            IError::UnexpectedError { token } => IErrorView::UnexpectedError { token: *token },
        }
    }
}

impl IError {
    fn unary_op_error(err: VError, token: &Token) -> (error: Self)
        ensures
            error@ == (IErrorView::UnaryOpError { source: err@, token: *token }),
    {
        Self::UnaryOpError { source: err, token: token.clone() }
    }

    fn binary_op_error(err: VError, token: &Token) -> (error: Self)
        ensures
            error@ == (IErrorView::BinaryOpError { source: err@, token: *token }),
    {
        Self::BinaryOpError { source: err, token: token.clone() }
    }

    fn environment_error(err: environment::Error, token: &Token) -> (error: Self)
        ensures
            error@ == (IErrorView::EnvironmentError { source: err@, token: *token }),
    {
        Self::EnvironmentError { source: err, token: token.clone() }
    }

    fn unexpected_error(token: &Token) -> (error: Self)
        ensures
            error@ == (IErrorView::UnexpectedError { token: *token }),
    {
        Self::UnexpectedError { token: token.clone() }
    }
}

/// What is to be written out: a text, or a number, which the host writes
/// out in its own way.
#[derive(Debug)]
pub enum Printable {
    Text(String),
    Number(u64),
}

impl View for Printable {
    type V = PrintableView;

    open spec fn view(&self) -> PrintableView {
        match self {
            Printable::Text(text) => PrintableView::Text(text@),
            Printable::Number(bits) => PrintableView::Number(*bits),
        }
    }
}

impl Printable {
    /// What is written out for a value: its text, or the number that it is.
    pub fn from(value: Value) -> (printable: Self)
        ensures
            printable@ == match value@ {
                ValueView::Number(bits) => PrintableView::Number(bits),
                other => PrintableView::Text(crate::value::text_of(other)),
            },
    {
        match value {
            Value::Number(bits) => Printable::Number(bits),
            Value::String(text) => Printable::Text(text),
            Value::Bool(true) => Printable::Text("true".to_owned()),
            Value::Bool(false) => Printable::Text("false".to_owned()),
            Value::Nil => Printable::Text("nil".to_owned()),
        }
    }
}

/// What the interpreter hands to the host after a step.
#[derive(Debug)]
pub enum Request {
    /// Nothing: the next step can follow.
    Continue,
    /// Nothing: the program has run to its end.
    Finished,
    /// A line of output.
    Print(Printable),
    /// An error. The statement of the program in which it arose has been
    /// given up; the next step goes on behind it.
    Report(IError),
    /// A question. The next step takes the answer.
    Ask(Question),
}

impl View for Request {
    type V = RequestView;

    open spec fn view(&self) -> RequestView {
        match self {
            Request::Continue => RequestView::Continue,
            Request::Finished => RequestView::Finished,
            Request::Print(printable) => RequestView::Print(printable@),
            Request::Report(error) => RequestView::Report(error@),
            Request::Ask(question) => RequestView::Ask(question@),
        }
    }
}

/// What a sequence of values stands for.
pub open spec fn value_views(values: Seq<Value>) -> Seq<ValueView> {
    values.map_values(|value: Value| value@)
}

/// One run of one program: what is left to do of it, and the values that
/// wait to be used.
#[derive(Debug)]
pub struct Execution<'a> {
    frames: Vec<Frame<'a>>,
    values: Vec<Value>,
    awaiting: Option<Question>,
}

/// The interpreter: the scopes, which outlast the run of a program.
#[derive(Debug)]
pub struct Interpreter {
    environment: Environment,
}

/// What an `Execution` stands for: what is left to do (the next piece
/// last), the values that wait (the newest last), and the question that is
/// open.
pub struct ExecutionView<'a> {
    pub frames: Seq<Frame<'a>>,
    pub values: Seq<ValueView>,
    pub awaiting: Option<crate::value::QuestionView>,
}

impl<'a> View for Execution<'a> {
    type V = ExecutionView<'a>;

    closed spec fn view(&self) -> ExecutionView<'a> {
        ExecutionView {
            frames: self.frames@,
            values: value_views(self.values@),
            awaiting: match self.awaiting {
                Some(question) => Some(question@),
                None => None,
            },
        }
    }
}

impl<'a> Execution<'a> {
    /// Every piece that is left to do will find the values that it uses.
    pub open spec fn well_formed(&self) -> bool {
        balanced(
            self@.frames,
            self@.values.len() + if self@.awaiting is Some {
                1int
            } else {
                0int
            },
        )
    }

    /// The run of a program, before its first step: all its statements are
    /// left to do.
    pub fn new(statements: &'a Vec<Stmt>) -> (execution: Self)
        ensures
            execution.well_formed(),
            execution@ == (ExecutionView {
                frames: seq![Frame::Program(statements, 0)],
                values: seq![],
                awaiting: None,
            }),
    {
        let mut frames: Vec<Frame<'a>> = Vec::new();
        frames.push(Frame::Program(statements, 0));
        let execution = Execution { frames, values: Vec::new(), awaiting: None };
        proof {
            reveal_with_fuel(balanced, 2);
            assert(execution.frames@ =~= seq![Frame::Program(statements, 0)]);
            assert(value_views(execution.values@) =~= seq![]);
            assert(execution.frames@.drop_last() =~= seq![]);
        }
        execution
    }

    /// The question that is open, if one is.
    pub fn awaiting(&self) -> (question: &Option<Question>)
        ensures
            self@.awaiting == match *question {
                Some(question) => Some(question@),
                None => None,
            },
    {
        &self.awaiting
    }
}

impl Interpreter {
    /// The scopes, from the innermost outward.
    pub closed spec fn scopes(&self) -> Seq<crate::environment::Scope> {
        self.environment@
    }

    /// The state of a run in these scopes.
    pub open spec fn state<'a>(&self, execution: Execution<'a>) -> Machine<'a> {
        Machine {
            frames: execution@.frames,
            values: execution@.values,
            scopes: self.scopes(),
            awaiting: execution@.awaiting,
        }
    }

    /// Whether a step that was to come to `transition` has done so.
    pub open spec fn reached<'a>(
        &self,
        execution: Execution<'a>,
        request: Request,
        transition: Transition<'a>,
    ) -> bool {
        self.state(execution) == transition.machine && request@ == transition.request
    }

    /// An interpreter with the global scope alone, which is empty.
    pub fn new() -> (interpreter: Self)
        ensures
            interpreter.scopes() == seq![Map::<Seq<char>, ValueView>::empty()],
    {
        Self { environment: Environment::new(None) }
    }

    /// The environment, to look into.
    pub fn environment(&self) -> (environment: &Environment)
        ensures
            environment@ == self.scopes(),
    {
        &self.environment
    }

    /// Runs the program on, step by step, until there is something for
    /// the host to do, but no more than `budget` steps.
    pub fn interpret<'a>(&mut self, execution: &mut Execution<'a>, reply: Reply, budget: usize) -> (request:
        Request)
        requires
            old(execution).well_formed(),
        ensures
            final(execution).well_formed(),
            final(self).reached(
                *final(execution),
                request,
                steps(old(self).state(*old(execution)), reply, budget as nat),
            ),
    {
        let mut left = budget;
        let mut answer = reply;
        let ghost whole = steps(self.state(*execution), reply, budget as nat);
        while left > 0
            invariant
                execution.well_formed(),
                whole == steps(old(self).state(*old(execution)), reply, budget as nat),
                whole == steps(self.state(*execution), answer, left as nat),
            decreases left,
        {
            let ghost before = self.state(*execution);
            let request = self.step(execution, answer);
            match request {
                Request::Continue => {},
                other => {
                    assert(other@ != RequestView::Continue);
                    return other;
                },
            }
            answer = Reply::Nothing;
            left -= 1;
        }
        Request::Continue
    }

    /// One step of a run.
    pub fn step<'a>(&mut self, execution: &mut Execution<'a>, reply: Reply) -> (request: Request)
        requires
            old(execution).well_formed(),
        ensures
            final(execution).well_formed(),
            final(self).reached(
                *final(execution),
                request,
                step(old(self).state(*old(execution)), reply),
            ),
    {
        if execution.awaiting.is_some() {
            return self.answer(execution, reply);
        }
        let ghost before = self.state(*execution);
        match execution.frames.pop() {
            None => {
                assert(self.state(*execution).frames =~= before.frames);
                Request::Finished
            },
            Some(frame) => {
                proof {
                    assert(before.frames.last() == frame);
                    assert(self.state(*execution).frames =~= before.frames.drop_last());
                }
                self.run(execution, frame)
            },
        }
    }

    /// A step with a question open.
    fn answer<'a>(&mut self, execution: &mut Execution<'a>, reply: Reply) -> (request: Request)
        requires
            old(execution).awaiting is Some,
            old(execution).well_formed(),
        ensures
            final(execution).well_formed(),
            final(self).reached(
                *final(execution),
                request,
                step(old(self).state(*old(execution)), reply),
            ),
    {
        let ghost before = self.state(*execution);
        let value = match (&execution.awaiting, reply) {
            (Some(Question::Compare(_, _, _)), Reply::Bool(truth)) => Some(Value::Bool(truth)),
            (Some(Question::Compare(_, _, _)), _) => None,
            (_, Reply::Number(bits)) => Some(Value::Number(bits)),
            _ => None,
        };
        match value {
            Some(value) => {
                execution.awaiting = None;
                execution.values.push(value);
                assert(self.state(*execution).values =~= before.values.push(value@));
                Request::Continue
            },
            None => match &execution.awaiting {
                Some(question) => Request::Ask(question.clone()),
                None => Request::Continue,
            },
        }
    }

    /// Gives up the statement of the program that is being run.
    fn fail<'a>(&mut self, execution: &mut Execution<'a>, error: IError, Ghost(count): Ghost<int>) -> (request:
        Request)
        requires
            balanced(old(execution).frames@, count),
        ensures
            final(execution).well_formed(),
            final(self).reached(
                *final(execution),
                request,
                failed(old(self).state(*old(execution)), error@),
            ),
    {
        let ghost before = self.state(*execution);
        proof {
            lemma_unwound(before.frames, before.scopes, count);
        }
        loop
            invariant
                unwound(self.state(*execution).frames, self.state(*execution).scopes) == unwound(
                    before.frames,
                    before.scopes,
                ),
            ensures
                self.state(*execution).frames == unwound(before.frames, before.scopes).0,
                self.state(*execution).scopes == unwound(before.frames, before.scopes).1,
            decreases execution.frames.len(),
        {
            let depth = execution.frames.len();
            if depth == 0 {
                break ;
            }
            match execution.frames[depth - 1] {
                Frame::Program(_, _) => {
                    break ;
                },
                Frame::Block(_, _) => {
                    self.environment.leave();
                },
                _ => {},
            }
            let ghost frames = execution.frames@;
            execution.frames.pop();
            assert(execution.frames@ =~= frames.drop_last());
        }
        execution.values.clear();
        execution.awaiting = None;
        assert(self.state(*execution).values =~= seq![]);
        Request::Report(error)
    }

    /// Keeps the value of an operation, or hands its question to the host.
    fn settle<'a>(&mut self, execution: &mut Execution<'a>, pending: Pending) -> (request: Request)
        requires
            old(execution).awaiting is None,
            balanced(old(execution).frames@, old(execution).values@.len() as int + 1),
        ensures
            final(execution).well_formed(),
            final(self).reached(
                *final(execution),
                request,
                settled(old(self).state(*old(execution)), pending@),
            ),
    {
        let ghost before = self.state(*execution);
        match pending {
            Pending::Ready(value) => {
                execution.values.push(value);
                assert(self.state(*execution).values =~= before.values.push(value@));
                Request::Continue
            },
            Pending::Ask(question) => {
                let asked = question.clone();
                execution.awaiting = Some(question);
                Request::Ask(asked)
            },
        }
    }

    /// The same of an operation that may fail.
    fn conclude<'a>(
        &mut self,
        execution: &mut Execution<'a>,
        outcome: Result<Pending, IError>,
    ) -> (request: Request)
        requires
            old(execution).awaiting is None,
            balanced(old(execution).frames@, old(execution).values@.len() as int + 1),
        ensures
            final(execution).well_formed(),
            final(self).reached(
                *final(execution),
                request,
                concluded(
                    old(self).state(*old(execution)),
                    match outcome {
                        Ok(pending) => Ok(pending@),
                        Err(error) => Err(error@),
                    },
                ),
            ),
    {
        match outcome {
            Ok(pending) => self.settle(execution, pending),
            Err(error) => self.fail(execution, error, Ghost(execution.values@.len() as int + 1)),
        }
    }

    /// One more piece to do, which comes next.
    fn push<'a>(&self, execution: &mut Execution<'a>, frame: Frame<'a>, Ghost(count): Ghost<int>)
        requires
            balanced(old(execution).frames@, count - takes(frame) + gives(frame)),
            fits(frame, count),
        ensures
            balanced(final(execution).frames@, count),
            self.state(*final(execution)) == with(self.state(*old(execution)), frame),
            final(execution).values == old(execution).values,
            final(execution).awaiting == old(execution).awaiting,
    {
        let ghost frames = execution.frames@;
        execution.frames.push(frame);
        assert(execution.frames@.drop_last() =~= frames);
    }

    /// Takes the newest value.
    fn pop<'a>(&self, execution: &mut Execution<'a>) -> (value: Value)
        requires
            old(execution).values@.len() > 0,
        ensures
            value@ == self.state(*old(execution)).values.last(),
            self.state(*final(execution)) == dropped(self.state(*old(execution))),
            final(execution).frames == old(execution).frames,
            final(execution).awaiting == old(execution).awaiting,
            final(execution).values@.len() == old(execution).values@.len() - 1,
    {
        let ghost before = self.state(*execution);
        let value = execution.values.pop().unwrap();
        assert(self.state(*execution).values =~= before.values.drop_last());
        value
    }

    /// The piece `frame`, which has been taken off what is left to do.
    fn run<'a>(&mut self, execution: &mut Execution<'a>, frame: Frame<'a>) -> (request: Request)
        requires
            old(execution).awaiting is None,
            fits(frame, old(execution).values@.len() as int),
            balanced(
                old(execution).frames@,
                old(execution).values@.len() - takes(frame) + gives(frame),
            ),
        ensures
            final(execution).well_formed(),
            final(self).reached(
                *final(execution),
                request,
                run(old(self).state(*old(execution)), frame),
            ),
    {
        match frame {
            Frame::Program(statements, next) => {
                if next < statements.len() {
                    self.push(execution, Frame::Program(statements, next + 1), Ghost(0));
                    self.push(execution, Frame::Execute(&statements[next]), Ghost(0));
                }
                Request::Continue
            },
            Frame::Block(statements, next) => {
                if next < statements.len() {
                    self.push(execution, Frame::Block(statements, next + 1), Ghost(0));
                    self.push(execution, Frame::Execute(&statements[next]), Ghost(0));
                } else {
                    self.environment.leave();
                }
                Request::Continue
            },
            Frame::Execute(stmt) => self.visit_stmt(execution, stmt),
            Frame::Evaluate(expr) => self.visit_expr(execution, expr),
            Frame::Unary(operator) => {
                let right = self.pop(execution);
                let outcome = Self::interpret_unary(operator, &right);
                self.conclude(execution, outcome)
            },
            Frame::Apply(operator) => {
                let right = self.pop(execution);
                let left = self.pop(execution);
                let outcome = Self::interpret_binary(operator, &left, &right);
                self.conclude(execution, outcome)
            },
            Frame::Logical(operator) => {
                let right = self.pop(execution);
                let left = self.pop(execution);
                let outcome = Self::interpret_logical(operator, left, right);
                self.conclude(execution, outcome)
            },
            Frame::Choose(inner_true, inner_false) => {
                let condition = self.pop(execution);
                self.interpret_ternary_condition(execution, &condition, inner_true, inner_false);
                Request::Continue
            },
            Frame::Assign(name) => self.assign(execution, name),
            _ => self.finish(execution, frame),
        }
    }

    /// The pieces that end a statement.
    fn finish<'a>(&mut self, execution: &mut Execution<'a>, frame: Frame<'a>) -> (request: Request)
        requires
            old(execution).awaiting is None,
            old(execution).values@.len() == 1,
            balanced(old(execution).frames@, 0),
            frame is Discard || frame is Print || frame is Define || frame is Branch
                || frame is Loop,
        ensures
            final(execution).well_formed(),
            final(self).reached(
                *final(execution),
                request,
                run(old(self).state(*old(execution)), frame),
            ),
    {
        let value = self.pop(execution);
        match frame {
            Frame::Print => {
                return Request::Print(Printable::from(value));
            },
            Frame::Define(name) => {
                self.environment.define(name.lexeme(), value);
            },
            Frame::Branch(then_branch, else_branch) => {
                if value.is_true() {
                    self.push(execution, Frame::Execute(then_branch), Ghost(0));
                } else {
                    match else_branch {
                        Some(branch) => {
                            self.push(execution, Frame::Execute(branch), Ghost(0));
                        },
                        None => {},
                    }
                }
            },
            Frame::Loop(condition, body) => {
                if value.is_true() {
                    self.push(execution, Frame::Loop(condition, body), Ghost(1));
                    self.push(execution, Frame::Evaluate(condition), Ghost(0));
                    self.push(execution, Frame::Execute(body), Ghost(0));
                }
            },
            _ => {},
        }
        Request::Continue
    }

    /// Gives the variable the newest value, which stays.
    fn assign<'a>(&mut self, execution: &mut Execution<'a>, name: &'a Token) -> (request: Request)
        requires
            old(execution).awaiting is None,
            old(execution).values@.len() >= 1,
            balanced(old(execution).frames@, old(execution).values@.len() as int),
        ensures
            final(execution).well_formed(),
            final(self).reached(
                *final(execution),
                request,
                run(old(self).state(*old(execution)), Frame::Assign(name)),
            ),
    {
        let ghost before = self.state(*execution);
        let value = self.pop(execution);
        match self.environment.assign(name, &value) {
            Ok(_) => {
                execution.values.push(value);
                assert(before.values.drop_last().push(value@) =~= before.values);
                assert(self.state(*execution).values =~= before.values);
                Request::Continue
            },
            Err(err) => {
                let error = IError::environment_error(err, name);
                self.fail(execution, error, Ghost(before.values.len() as int))
            },
        }
    }

    /// A literal, as the value that it denotes.
    fn interpret_literal(literal: &crate::token::Literal) -> (pending: Pending)
        ensures
            pending@ == crate::value::literal_value(literal@),
    {
        Value::from(literal)
    }

    /// A unary operator on a value.
    pub fn interpret_unary(token: &Token, right: &Value) -> (outcome: Result<Pending, IError>)
        ensures
            unary_outcome(*token, right@) == match outcome {
                Ok(pending) => Ok::<crate::value::PendingView, IErrorView>(pending@),
                Err(error) => Err::<crate::value::PendingView, IErrorView>(error@),
            },
    {
        match token.token_type() {
            TokenType::Bang => match right.not() {
                Ok(value) => Ok(Pending::Ready(value)),
                Err(err) => Err(IError::unary_op_error(err, token)),
            },
            TokenType::Minus => match right.neg() {
                Ok(pending) => Ok(pending),
                Err(err) => Err(IError::unary_op_error(err, token)),
            },
            _ => Err(IError::unexpected_error(token)),
        }
    }

    /// A binary operator on two values.
    pub fn interpret_binary(token: &Token, left: &Value, right: &Value) -> (outcome: Result<
        Pending,
        IError,
    >)
        ensures
            binary_outcome(*token, left@, right@) == match outcome {
                Ok(pending) => Ok::<crate::value::PendingView, IErrorView>(pending@),
                Err(error) => Err::<crate::value::PendingView, IErrorView>(error@),
            },
    {
        match token.token_type() {
            TokenType::Minus => match left.sub(right) {
                Ok(pending) => Ok(pending),
                Err(err) => Err(IError::binary_op_error(err, token)),
            },
            TokenType::Slash => match left.div(right) {
                Ok(pending) => Ok(pending),
                Err(err) => Err(IError::binary_op_error(err, token)),
            },
            TokenType::Star => match left.mul(right) {
                Ok(pending) => Ok(pending),
                Err(err) => Err(IError::binary_op_error(err, token)),
            },
            TokenType::Plus => match left.add(right) {
                Ok(pending) => Ok(pending),
                Err(err) => Err(IError::binary_op_error(err, token)),
            },
            TokenType::Greater => Ok(left.partial_cmp(right, Comparison::Greater)),
            TokenType::GreaterEqual => Ok(left.partial_cmp(right, Comparison::GreaterEqual)),
            TokenType::Less => Ok(left.partial_cmp(right, Comparison::Less)),
            TokenType::LessEqual => Ok(left.partial_cmp(right, Comparison::LessEqual)),
            TokenType::BangEqual => Ok(left.ne(right)),
            TokenType::EqualEqual => Ok(left.eq(right)),
            _ => Err(IError::unexpected_error(token)),
        }
    }

    /// `or` and `and` on two values, both of which have been evaluated.
    pub fn interpret_logical(token: &Token, left: Value, right: Value) -> (outcome: Result<
        Pending,
        IError,
    >)
        ensures
            logical_outcome(*token, left@, right@) == match outcome {
                Ok(pending) => Ok::<crate::value::PendingView, IErrorView>(pending@),
                Err(error) => Err::<crate::value::PendingView, IErrorView>(error@),
            },
    {
        match token.token_type() {
            TokenType::Or => if left.is_true() {
                Ok(Pending::Ready(left))
            } else {
                Ok(Pending::Ready(right))
            },
            TokenType::And => if left.is_true() {
                Ok(Pending::Ready(right))
            } else {
                Ok(Pending::Ready(left))
            },
            _ => Err(IError::unexpected_error(token)),
        }
    }

    /// Leaves one of the two expressions to be evaluated: the first one
    /// where the condition counts as true. The other one is never looked at.
    fn interpret_ternary_condition<'a>(
        &self,
        execution: &mut Execution<'a>,
        condition: &Value,
        inner_true: &'a Expr,
        inner_false: &'a Expr,
    )
        requires
            balanced(old(execution).frames@, old(execution).values@.len() as int + 1),
        ensures
            balanced(final(execution).frames@, final(execution).values@.len() as int),
            self.state(*final(execution)) == with(
                self.state(*old(execution)),
                Frame::Evaluate(
                    if crate::value::truthy(condition@) {
                        inner_true
                    } else {
                        inner_false
                    },
                ),
            ),
            final(execution).values == old(execution).values,
            final(execution).awaiting == old(execution).awaiting,
    {
        if condition.is_true() {
            self.push(execution, Frame::Evaluate(inner_true), Ghost(execution.values@.len() as int));
        } else {
            self.push(execution, Frame::Evaluate(inner_false), Ghost(execution.values@.len() as int));
        }
    }

    /// One step into an expression.
    fn visit_expr<'a>(&mut self, execution: &mut Execution<'a>, expr: &'a Expr) -> (request: Request)
        requires
            old(execution).awaiting is None,
            balanced(old(execution).frames@, old(execution).values@.len() as int + 1),
        ensures
            final(execution).well_formed(),
            final(self).reached(
                *final(execution),
                request,
                evaluate(old(self).state(*old(execution)), expr),
            ),
    {
        let ghost count = execution.values@.len() as int;
        match expr {
            Expr::Binary(left, token, right) => {
                self.push(execution, Frame::Apply(token), Ghost(count + 2));
                self.push(execution, Frame::Evaluate(&**right), Ghost(count + 1));
                self.push(execution, Frame::Evaluate(&**left), Ghost(count));
                Request::Continue
            },
            Expr::Logical { left, operator, right } => {
                self.push(execution, Frame::Logical(operator), Ghost(count + 2));
                self.push(execution, Frame::Evaluate(&**right), Ghost(count + 1));
                self.push(execution, Frame::Evaluate(&**left), Ghost(count));
                Request::Continue
            },
            Expr::Grouping(expr) => {
                self.push(execution, Frame::Evaluate(&**expr), Ghost(count));
                Request::Continue
            },
            Expr::Literal(literal) => {
                let pending = Self::interpret_literal(literal);
                self.settle(execution, pending)
            },
            Expr::Unary(token, expr) => {
                self.push(execution, Frame::Unary(token), Ghost(count + 1));
                self.push(execution, Frame::Evaluate(&**expr), Ghost(count));
                Request::Continue
            },
            Expr::Condition(condition, inner_true, inner_false) => {
                self.push(execution, Frame::Choose(&**inner_true, &**inner_false), Ghost(count + 1));
                self.push(execution, Frame::Evaluate(&**condition), Ghost(count));
                Request::Continue
            },
            Expr::Variable(token) => {
                let found = match self.environment.get(token) {
                    Ok(value) => Ok(Pending::Ready(value.clone())),
                    Err(err) => Err(IError::environment_error(err, token)),
                };
                self.conclude(execution, found)
            },
            Expr::Assign(name, expr) => {
                self.push(execution, Frame::Assign(name), Ghost(count + 1));
                self.push(execution, Frame::Evaluate(&**expr), Ghost(count));
                Request::Continue
            },
        }
    }

    /// Opens the scope of a block and leaves its statements to be run.
    fn execute_block<'a>(&mut self, execution: &mut Execution<'a>, statements: &'a Vec<Stmt>)
        requires
            old(execution).values@.len() == 0,
            balanced(old(execution).frames@, 0),
        ensures
            balanced(final(execution).frames@, 0),
            final(self).state(*final(execution)) == with(
                within(
                    old(self).state(*old(execution)),
                    crate::environment::entered(old(self).scopes()),
                ),
                Frame::Block(statements, 0),
            ),
            final(execution).values == old(execution).values,
            final(execution).awaiting == old(execution).awaiting,
    {
        self.environment.enter();
        self.push(execution, Frame::Block(statements, 0), Ghost(0));
    }

    /// One step into a statement.
    fn visit_stmt<'a>(&mut self, execution: &mut Execution<'a>, stmt: &'a Stmt) -> (request: Request)
        requires
            old(execution).awaiting is None,
            old(execution).values@.len() == 0,
            balanced(old(execution).frames@, 0),
        ensures
            final(execution).well_formed(),
            final(self).reached(
                *final(execution),
                request,
                execute(old(self).state(*old(execution)), stmt),
            ),
    {
        match stmt {
            Stmt::Expression(expr) => {
                self.push(execution, Frame::Discard, Ghost(1));
                self.push(execution, Frame::Evaluate(expr), Ghost(0));
            },
            Stmt::Print(expr) => {
                self.push(execution, Frame::Print, Ghost(1));
                self.push(execution, Frame::Evaluate(expr), Ghost(0));
            },
            Stmt::Var(name, initializer) => {
                match initializer {
                    Some(expr) => {
                        self.push(execution, Frame::Define(name), Ghost(1));
                        self.push(execution, Frame::Evaluate(expr), Ghost(0));
                    },
                    None => {
                        self.environment.define(name.lexeme(), Value::Nil);
                    },
                }
            },
            Stmt::Block(stmts) => {
                self.execute_block(execution, stmts);
            },
            Stmt::If { condition, then_branch, else_branch } => {
                let otherwise: Option<&'a Stmt> = match else_branch {
                    Some(branch) => Some(&**branch),
                    None => None,
                };
                self.push(execution, Frame::Branch(&**then_branch, otherwise), Ghost(1));
                self.push(execution, Frame::Evaluate(condition), Ghost(0));
            },
            Stmt::While { condition, body } => {
                self.push(execution, Frame::Loop(condition, &**body), Ghost(1));
                self.push(execution, Frame::Evaluate(condition), Ghost(0));
            },
        };
        Request::Continue
    }
}

} // verus!
