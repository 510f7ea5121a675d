//! The states of a run and the steps between them.

use crate::environment::{assigned, defined, entered, holder, left, lookup, Scope};
use crate::expr::{Expr, Stmt};
use crate::token::{Token, TokenType};
use crate::value::{
    arithmetic, equality, inequality, literal_value, negation, ordering, text_of, truthy,
    Arithmetic, Comparison, PendingView, QuestionView, VErrorView, ValueView,
};
use vstd::prelude::*;

verus! {

/// What can go wrong while a program runs.
pub enum IErrorView {
    UnaryOpError { source: VErrorView, token: Token },
    BinaryOpError { source: VErrorView, token: Token },
    EnvironmentError { source: crate::environment::ErrorView, token: Token },
    UnexpectedError { token: Token },
}

/// What is to be written out: a text, or a number, which the host writes
/// out in its own way.
pub enum PrintableView {
    Text(Seq<char>),
    Number(u64),
}

/// What the interpreter hands to the host after a step.
pub enum RequestView {
    /// Nothing: the next step can follow.
    Continue,
    /// Nothing: the program has run to its end.
    Finished,
    /// A line of output.
    Print(PrintableView),
    /// An error. The statement of the program in which it arose has been
    /// given up; the next step goes on behind it.
    Report(IErrorView),
    /// A question. The next step takes the answer.
    Ask(QuestionView),
}

/// What the host hands to the interpreter with a step: the answer to the
/// question that the step before has asked, if it has asked one.
#[derive(Debug, Clone, Copy, PartialEq, Eq, Structural)]
pub enum Reply {
    Nothing,
    Number(u64),
    Bool(bool),
}

/// What is left to do, piece by piece. A piece either works on the
/// statements and expressions of the program, which it borrows, or goes on
/// with values that earlier pieces have left.
#[derive(Debug, Clone, Copy)]
pub enum Frame<'a> {
    /// Run the statements of the program from the given one on.
    Program(&'a Vec<Stmt>, usize),
    /// Run the statements of a block from the given one on, and then
    /// leave the scope of the block.
    Block(&'a Vec<Stmt>, usize),
    /// Run the statement.
    Execute(&'a Stmt),
    /// Evaluate the expression, which leaves its value.
    Evaluate(&'a Expr),
    /// Drop a value.
    Discard,
    /// Write out a value.
    Print,
    /// Define the variable with a value.
    Define(&'a Token),
    /// Run the first statement where a value counts as true, else the
    /// second one, if there is one.
    Branch(&'a Stmt, Option<&'a Stmt>),
    /// Where a value counts as true, run the body, evaluate the condition
    /// again and come back here.
    Loop(&'a Expr, &'a Stmt),
    /// Apply the operator to a value.
    Unary(&'a Token),
    /// Apply the operator to two values.
    Apply(&'a Token),
    /// Choose among two values by the truth of the first.
    Logical(&'a Token),
    /// Evaluate the first expression where a value counts as true, else
    /// the second one.
    Choose(&'a Expr, &'a Expr),
    /// Give the variable a value, which stays.
    Assign(&'a Token),
}

/// The state of a run: what is left to do (the next piece last), the
/// values that wait for the pieces that use them (the newest last), the
/// scopes from the innermost outward, and the question that is open.
pub struct Machine<'a> {
    pub frames: Seq<Frame<'a>>,
    pub values: Seq<ValueView>,
    pub scopes: Seq<Scope>,
    pub awaiting: Option<QuestionView>,
}

/// What a step comes to: the state behind it, and what the host is handed.
pub struct Transition<'a> {
    pub machine: Machine<'a>,
    pub request: RequestView,
}

/// How many values a piece uses.
pub open spec fn takes(frame: Frame) -> int {
    match frame {
        Frame::Program(_, _) | Frame::Block(_, _) | Frame::Execute(_) | Frame::Evaluate(_) => 0,
        Frame::Apply(_) | Frame::Logical(_) => 2,
        _ => 1,
    }
}

/// How many values a piece leaves, in the end.
pub open spec fn gives(frame: Frame) -> int {
    match frame {
        Frame::Evaluate(_) | Frame::Unary(_) | Frame::Apply(_) | Frame::Logical(_) | Frame::Choose(
            _,
            _,
        ) | Frame::Assign(_) => 1,
        _ => 0,
    }
}

/// Whether a piece can run with the given number of values waiting. A
/// piece that runs statements finds none. A piece that ends a statement
/// finds the one that it uses. A piece of an expression finds at least
/// those that it uses.
pub open spec fn fits(frame: Frame, count: int) -> bool {
    match frame {
        Frame::Program(_, _) | Frame::Block(_, _) | Frame::Execute(_) => count == 0,
        Frame::Discard | Frame::Print | Frame::Define(_) | Frame::Branch(_, _) | Frame::Loop(
            _,
            _,
        ) => count == 1,
        _ => count >= takes(frame),
    }
}

/// Whether the pieces, run from the last to the first, each find the
/// values that they use, with `count` values waiting at first, and leave
/// none.
pub open spec fn balanced(frames: Seq<Frame>, count: int) -> bool
    decreases frames.len(),
{
    if frames.len() == 0 {
        count == 0
    } else {
        fits(frames.last(), count) && balanced(
            frames.drop_last(),
            count - takes(frames.last()) + gives(frames.last()),
        )
    }
}

/// How many values wait or are on their way: an open question stands for
/// the value that answers it.
pub open spec fn waiting(machine: Machine) -> int {
    machine.values.len() + if machine.awaiting is Some {
        1int
    } else {
        0int
    }
}

/// Whether a state is sound: every piece will find the values that it uses.
pub open spec fn sound(machine: Machine) -> bool {
    balanced(machine.frames, waiting(machine))
}

/// How many blocks are open.
pub open spec fn blocks(frames: Seq<Frame>) -> int
    decreases frames.len(),
{
    if frames.len() == 0 {
        0
    } else {
        blocks(frames.drop_last()) + match frames.last() {
            Frame::Block(_, _) => 1int,
            _ => 0int,
        }
    }
}

/// The next step can follow.
pub open spec fn go<'a>(machine: Machine<'a>) -> Transition<'a> {
    Transition { machine, request: RequestView::Continue }
}

/// The state with one more piece to do, which comes next.
pub open spec fn with<'a>(machine: Machine<'a>, frame: Frame<'a>) -> Machine<'a> {
    Machine { frames: machine.frames.push(frame), ..machine }
}

/// The state with one more value.
pub open spec fn holding<'a>(machine: Machine<'a>, value: ValueView) -> Machine<'a> {
    Machine { values: machine.values.push(value), ..machine }
}

/// The state without its newest value.
pub open spec fn dropped<'a>(machine: Machine<'a>) -> Machine<'a> {
    Machine { values: machine.values.drop_last(), ..machine }
}

/// The state in other scopes.
pub open spec fn within<'a>(machine: Machine<'a>, scopes: Seq<Scope>) -> Machine<'a> {
    Machine { scopes, ..machine }
}

/// What is left to do once a statement of the program is given up: all
/// up to the piece that runs the program, and the scopes with every block
/// on the way closed.
pub open spec fn unwound<'a>(frames: Seq<Frame<'a>>, scopes: Seq<Scope>) -> (
    Seq<Frame<'a>>,
    Seq<Scope>,
)
    decreases frames.len(),
{
    if frames.len() == 0 {
        (frames, scopes)
    } else {
        match frames.last() {
            Frame::Program(_, _) => (frames, scopes),
            Frame::Block(_, _) => unwound(frames.drop_last(), left(scopes)),
            _ => unwound(frames.drop_last(), scopes),
        }
    }
}

/// An error: the statement of the program in which it arose is given up
/// with all its values, the blocks that it had opened are closed, and the
/// error is handed to the host.
pub open spec fn failed<'a>(machine: Machine<'a>, error: IErrorView) -> Transition<'a> {
    let (frames, scopes) = unwound(machine.frames, machine.scopes);
    Transition {
        machine: Machine { frames, values: seq![], scopes, awaiting: None },
        request: RequestView::Report(error),
    }
}

/// What an operation has come to: its value is kept, or its question is
/// handed to the host.
pub open spec fn settled<'a>(machine: Machine<'a>, pending: PendingView) -> Transition<'a> {
    match pending {
        PendingView::Ready(value) => go(holding(machine, value)),
        PendingView::Ask(question) => Transition {
            machine: Machine { awaiting: Some(question), ..machine },
            request: RequestView::Ask(question),
        },
    }
}

/// The same of an operation that may fail.
pub open spec fn concluded<'a>(machine: Machine<'a>, outcome: Result<PendingView, IErrorView>) -> Transition<
    'a,
> {
    match outcome {
        Ok(pending) => settled(machine, pending),
        Err(error) => failed(machine, error),
    }
}

/// Whether the reply answers the question.
pub open spec fn answers(question: QuestionView, reply: Reply) -> Option<ValueView> {
    match (question, reply) {
        (QuestionView::Compare(_, _, _), Reply::Bool(truth)) => Some(ValueView::Bool(truth)),
        (QuestionView::Compare(_, _, _), _) => None,
        (_, Reply::Number(bits)) => Some(ValueView::Number(bits)),
        _ => None,
    }
}

/// A step with a question open: the answer becomes a value; where the
/// reply is no answer to the question, the question is asked again.
pub open spec fn answered<'a>(machine: Machine<'a>, question: QuestionView, reply: Reply) -> Transition<
    'a,
> {
    match answers(question, reply) {
        Some(value) => go(Machine { awaiting: None, ..holding(machine, value) }),
        None => Transition { machine, request: RequestView::Ask(question) },
    }
}

/// A unary operator on a value: `!` gives the contrary of its truth, `-`
/// changes the sign of a number.
pub open spec fn unary_outcome(operator: Token, value: ValueView) -> Result<PendingView, IErrorView> {
    match operator.token_type {
        TokenType::Bang => Ok(PendingView::Ready(ValueView::Bool(!truthy(value)))),
        TokenType::Minus => match negation(value) {
            Ok(pending) => Ok(pending),
            Err(source) => Err(IErrorView::UnaryOpError { source, token: operator }),
        },
        _ => Err(IErrorView::UnexpectedError { token: operator }),
    }
}

/// An operation of arithmetic, with its error put down to the operator.
pub open spec fn arithmetic_outcome(
    operation: Arithmetic,
    operator: Token,
    left: ValueView,
    right: ValueView,
) -> Result<PendingView, IErrorView> {
    match arithmetic(operation, left, right) {
        Ok(pending) => Ok(pending),
        Err(source) => Err(IErrorView::BinaryOpError { source, token: operator }),
    }
}

/// A binary operator on two values.
pub open spec fn binary_outcome(operator: Token, left: ValueView, right: ValueView) -> Result<
    PendingView,
    IErrorView,
> {
    match operator.token_type {
        TokenType::Minus => arithmetic_outcome(Arithmetic::Subtract, operator, left, right),
        TokenType::Slash => arithmetic_outcome(Arithmetic::Divide, operator, left, right),
        TokenType::Star => arithmetic_outcome(Arithmetic::Multiply, operator, left, right),
        TokenType::Plus => arithmetic_outcome(Arithmetic::Add, operator, left, right),
        TokenType::Greater => Ok(ordering(Comparison::Greater, left, right)),
        TokenType::GreaterEqual => Ok(ordering(Comparison::GreaterEqual, left, right)),
        TokenType::Less => Ok(ordering(Comparison::Less, left, right)),
        TokenType::LessEqual => Ok(ordering(Comparison::LessEqual, left, right)),
        TokenType::BangEqual => Ok(inequality(left, right)),
        TokenType::EqualEqual => Ok(equality(left, right)),
        _ => Err(IErrorView::UnexpectedError { token: operator }),
    }
}

/// `or` and `and` on two values, both of which have been evaluated: `or`
/// gives the first where it counts as true and else the second, `and`
/// gives the first where it does not count as true and else the second.
pub open spec fn logical_outcome(operator: Token, left: ValueView, right: ValueView) -> Result<
    PendingView,
    IErrorView,
> {
    match operator.token_type {
        TokenType::Or => Ok(
            PendingView::Ready(
                if truthy(left) {
                    left
                } else {
                    right
                },
            ),
        ),
        TokenType::And => Ok(
            PendingView::Ready(
                if truthy(left) {
                    right
                } else {
                    left
                },
            ),
        ),
        _ => Err(IErrorView::UnexpectedError { token: operator }),
    }
}

/// The error of a variable that no scope holds.
pub open spec fn undefined(name: Token) -> IErrorView {
    IErrorView::EnvironmentError {
        source: crate::environment::ErrorView::UndefinedVariable(name.lexeme@),
        token: name,
    }
}

/// One step into an expression: a literal and a variable give their
/// value; every other expression leaves its parts to be evaluated, the
/// first on top, and below them what is to become of their values.
pub open spec fn evaluate<'a>(machine: Machine<'a>, expr: &'a Expr) -> Transition<'a> {
    match expr {
        Expr::Literal(literal) => settled(machine, literal_value(literal@)),
        Expr::Grouping(inner) => go(with(machine, Frame::Evaluate(&**inner))),
        Expr::Unary(operator, right) => go(
            with(with(machine, Frame::Unary(operator)), Frame::Evaluate(&**right)),
        ),
        Expr::Binary(left, operator, right) => go(
            with(
                with(with(machine, Frame::Apply(operator)), Frame::Evaluate(&**right)),
                Frame::Evaluate(&**left),
            ),
        ),
        Expr::Logical { left, operator, right } => go(
            with(
                with(with(machine, Frame::Logical(operator)), Frame::Evaluate(&**right)),
                Frame::Evaluate(&**left),
            ),
        ),
        Expr::Condition(condition, inner_true, inner_false) => go(
            with(
                with(machine, Frame::Choose(&**inner_true, &**inner_false)),
                Frame::Evaluate(&**condition),
            ),
        ),
        Expr::Variable(name) => match lookup(machine.scopes, name.lexeme@) {
            Some(value) => go(holding(machine, value)),
            None => failed(machine, undefined(*name)),
        },
        Expr::Assign(name, value) => go(
            with(with(machine, Frame::Assign(name)), Frame::Evaluate(&**value)),
        ),
    }
}

/// One step into a statement.
pub open spec fn execute<'a>(machine: Machine<'a>, stmt: &'a Stmt) -> Transition<'a> {
    match stmt {
        Stmt::Expression(expr) => go(with(with(machine, Frame::Discard), Frame::Evaluate(expr))),
        Stmt::Print(expr) => go(with(with(machine, Frame::Print), Frame::Evaluate(expr))),
        Stmt::Var(name, initializer) => match initializer {
            Some(expr) => go(with(with(machine, Frame::Define(name)), Frame::Evaluate(expr))),
            None => go(within(machine, defined(machine.scopes, name.lexeme@, ValueView::Nil))),
        },
        Stmt::Block(statements) => go(
            with(within(machine, entered(machine.scopes)), Frame::Block(statements, 0)),
        ),
        Stmt::If { condition, then_branch, else_branch } => go(
            with(
                with(
                    machine,
                    Frame::Branch(
                        &**then_branch,
                        match else_branch {
                            Some(branch) => Some(&**branch),
                            None => None,
                        },
                    ),
                ),
                Frame::Evaluate(condition),
            ),
        ),
        Stmt::While { condition, body } => go(
            with(with(machine, Frame::Loop(condition, &**body)), Frame::Evaluate(condition)),
        ),
    }
}

/// The piece `frame`, which has been taken off what is left to do.
pub open spec fn run<'a>(machine: Machine<'a>, frame: Frame<'a>) -> Transition<'a> {
    let value = machine.values.last();
    let rest = dropped(machine);
    match frame {
        Frame::Program(statements, next) => if next < statements@.len() {
            go(
                with(
                    with(machine, Frame::Program(statements, (next + 1) as usize)),
                    Frame::Execute(&statements@[next as int]),
                ),
            )
        } else {
            go(machine)
        },
        Frame::Block(statements, next) => if next < statements@.len() {
            go(
                with(
                    with(machine, Frame::Block(statements, (next + 1) as usize)),
                    Frame::Execute(&statements@[next as int]),
                ),
            )
        } else {
            go(within(machine, left(machine.scopes)))
        },
        Frame::Execute(stmt) => execute(machine, stmt),
        Frame::Evaluate(expr) => evaluate(machine, expr),
        Frame::Discard => go(rest),
        Frame::Print => Transition {
            machine: rest,
            request: RequestView::Print(
                match value {
                    ValueView::Number(bits) => PrintableView::Number(bits),
                    other => PrintableView::Text(text_of(other)),
                },
            ),
        },
        Frame::Define(name) => go(within(rest, defined(machine.scopes, name.lexeme@, value))),
        Frame::Branch(then_branch, else_branch) => if truthy(value) {
            go(with(rest, Frame::Execute(then_branch)))
        } else {
            match else_branch {
                Some(branch) => go(with(rest, Frame::Execute(branch))),
                None => go(rest),
            }
        },
        Frame::Loop(condition, body) => if truthy(value) {
            go(
                with(
                    with(with(rest, Frame::Loop(condition, body)), Frame::Evaluate(condition)),
                    Frame::Execute(body),
                ),
            )
        } else {
            go(rest)
        },
        Frame::Unary(operator) => concluded(rest, unary_outcome(*operator, value)),
        Frame::Apply(operator) => concluded(
            dropped(rest),
            binary_outcome(*operator, rest.values.last(), value),
        ),
        Frame::Logical(operator) => concluded(
            dropped(rest),
            logical_outcome(*operator, rest.values.last(), value),
        ),
        Frame::Choose(inner_true, inner_false) => go(
            with(
                rest,
                Frame::Evaluate(
                    if truthy(value) {
                        inner_true
                    } else {
                        inner_false
                    },
                ),
            ),
        ),
        Frame::Assign(name) => match holder(machine.scopes, name.lexeme@) {
            Some(_) => go(within(machine, assigned(machine.scopes, name.lexeme@, value))),
            None => failed(rest, undefined(*name)),
        },
    }
}

/// One step of a run. With a question open, the step takes the reply.
/// Else it takes the next piece of what is left to do and runs it; with
/// nothing left, the program has run to its end.
pub open spec fn step<'a>(machine: Machine<'a>, reply: Reply) -> Transition<'a> {
    match machine.awaiting {
        Some(question) => answered(machine, question, reply),
        None => if machine.frames.len() == 0 {
            Transition { machine, request: RequestView::Finished }
        } else {
            run(Machine { frames: machine.frames.drop_last(), ..machine }, machine.frames.last())
        },
    }
}

/// Steps of a run, one behind the other, as long as the host is handed
/// nothing and no more than `budget` of them. With the budget used up, the
/// next step can follow.
pub open spec fn steps<'a>(machine: Machine<'a>, reply: Reply, budget: nat) -> Transition<'a>
    decreases budget,
{
    if budget == 0 {
        go(machine)
    } else {
        let first = step(machine, reply);
        if first.request == RequestView::Continue {
            steps(first.machine, Reply::Nothing, (budget - 1) as nat)
        } else {
            first
        }
    }
}

/// What is left once a statement is given up is sound with no value
/// waiting.
pub proof fn lemma_unwound(frames: Seq<Frame>, scopes: Seq<Scope>, count: int)
    requires
        balanced(frames, count),
    ensures
        balanced(unwound(frames, scopes).0, 0),
    decreases frames.len(),
{
    if frames.len() > 0 {
        match frames.last() {
            Frame::Program(_, _) => {},
            Frame::Block(_, _) => {
                lemma_unwound(frames.drop_last(), left(scopes), count);
            },
            _ => {
                lemma_unwound(
                    frames.drop_last(),
                    scopes,
                    count - takes(frames.last()) + gives(frames.last()),
                );
            },
        }
    }
}

/// With one more piece to do, a state stays sound where the piece finds
/// its values and leaves what the pieces below it use.
pub proof fn lemma_with(frames: Seq<Frame>, frame: Frame, count: int)
    requires
        fits(frame, count),
        balanced(frames, count - takes(frame) + gives(frame)),
    ensures
        balanced(frames.push(frame), count),
{
    assert(frames.push(frame).drop_last() =~= frames);
}

/// A step leads from a sound state to a sound state.
pub proof fn lemma_step_sound(machine: Machine, reply: Reply)
    requires
        sound(machine),
    ensures
        sound(step(machine, reply).machine),
{
    if machine.awaiting is None && machine.frames.len() > 0 {
        let frame = machine.frames.last();
        let below = machine.frames.drop_last();
        let count = machine.values.len() as int;
        let resting = Machine { frames: below, ..machine };
        lemma_run_sound(resting, frame);
    }
}

/// What an operation has come to leaves a sound state, where the pieces
/// below wait for its value.
pub proof fn lemma_settled_sound(machine: Machine, pending: PendingView)
    requires
        machine.awaiting is None,
        balanced(machine.frames, machine.values.len() as int + 1),
    ensures
        sound(settled(machine, pending).machine),
{
}

/// An error leaves a sound state.
pub proof fn lemma_failed_sound(machine: Machine, error: IErrorView, count: int)
    requires
        balanced(machine.frames, count),
    ensures
        sound(failed(machine, error).machine),
{
    lemma_unwound(machine.frames, machine.scopes, count);
}

/// A piece that finds its values leaves a sound state.
pub proof fn lemma_run_sound(machine: Machine, frame: Frame)
    requires
        machine.awaiting is None,
        fits(frame, machine.values.len() as int),
        balanced(machine.frames, machine.values.len() - takes(frame) + gives(frame)),
    ensures
        sound(run(machine, frame).machine),
{
    let frames = machine.frames;
    let count = machine.values.len() as int;
    let rest = dropped(machine);
    match frame {
        Frame::Program(statements, next) => {
            if next < statements@.len() {
                let again = Frame::Program(statements, (next + 1) as usize);
                lemma_with(frames, again, 0);
                lemma_with(frames.push(again), Frame::Execute(&statements@[next as int]), 0);
            }
        },
        Frame::Block(statements, next) => {
            if next < statements@.len() {
                let again = Frame::Block(statements, (next + 1) as usize);
                lemma_with(frames, again, 0);
                lemma_with(frames.push(again), Frame::Execute(&statements@[next as int]), 0);
            }
        },
        Frame::Execute(stmt) => {
            lemma_execute_sound(machine, stmt);
        },
        Frame::Evaluate(expr) => {
            lemma_evaluate_sound(machine, expr);
        },
        Frame::Discard | Frame::Print | Frame::Define(_) => {},
        Frame::Branch(then_branch, else_branch) => {
            lemma_with(frames, Frame::Execute(then_branch), 0);
            match else_branch {
                Some(branch) => {
                    lemma_with(frames, Frame::Execute(branch), 0);
                },
                None => {},
            }
        },
        Frame::Loop(condition, body) => {
            lemma_with(frames, frame, 1);
            lemma_with(frames.push(frame), Frame::Evaluate(condition), 0);
            lemma_with(frames.push(frame).push(Frame::Evaluate(condition)), Frame::Execute(body), 0);
        },
        Frame::Unary(operator) => {
            match unary_outcome(*operator, machine.values.last()) {
                Ok(pending) => {
                    lemma_settled_sound(rest, pending);
                },
                Err(error) => {
                    lemma_failed_sound(rest, error, count);
                },
            }
        },
        Frame::Apply(operator) => {
            match binary_outcome(*operator, rest.values.last(), machine.values.last()) {
                Ok(pending) => {
                    lemma_settled_sound(dropped(rest), pending);
                },
                Err(error) => {
                    lemma_failed_sound(dropped(rest), error, count - 1);
                },
            }
        },
        Frame::Logical(operator) => {
            match logical_outcome(*operator, rest.values.last(), machine.values.last()) {
                Ok(pending) => {
                    lemma_settled_sound(dropped(rest), pending);
                },
                Err(error) => {
                    lemma_failed_sound(dropped(rest), error, count - 1);
                },
            }
        },
        Frame::Choose(inner_true, inner_false) => {
            lemma_with(frames, Frame::Evaluate(inner_true), count - 1);
            lemma_with(frames, Frame::Evaluate(inner_false), count - 1);
        },
        Frame::Assign(name) => {
            lemma_failed_sound(rest, undefined(*name), count);
        },
    }
}

/// One step into a statement leaves a sound state.
pub proof fn lemma_execute_sound(machine: Machine, stmt: &Stmt)
    requires
        machine.awaiting is None,
        machine.values.len() == 0,
        balanced(machine.frames, 0),
    ensures
        sound(execute(machine, stmt).machine),
{
    let frames = machine.frames;
    match stmt {
        Stmt::Expression(expr) => {
            lemma_with(frames, Frame::Discard, 1);
            lemma_with(frames.push(Frame::Discard), Frame::Evaluate(expr), 0);
        },
        Stmt::Print(expr) => {
            lemma_with(frames, Frame::Print, 1);
            lemma_with(frames.push(Frame::Print), Frame::Evaluate(expr), 0);
        },
        Stmt::Var(name, initializer) => {
            match initializer {
                Some(expr) => {
                    lemma_with(frames, Frame::Define(name), 1);
                    lemma_with(frames.push(Frame::Define(name)), Frame::Evaluate(expr), 0);
                },
                None => {},
            }
        },
        Stmt::Block(statements) => {
            lemma_with(frames, Frame::Block(statements, 0), 0);
        },
        Stmt::If { condition, then_branch, else_branch } => {
            let branch = Frame::Branch(
                &**then_branch,
                match else_branch {
                    Some(branch) => Some(&**branch),
                    None => None,
                },
            );
            lemma_with(frames, branch, 1);
            lemma_with(frames.push(branch), Frame::Evaluate(condition), 0);
        },
        Stmt::While { condition, body } => {
            let looped = Frame::Loop(condition, &**body);
            lemma_with(frames, looped, 1);
            lemma_with(frames.push(looped), Frame::Evaluate(condition), 0);
        },
    }
}

/// One step into an expression leaves a sound state.
pub proof fn lemma_evaluate_sound(machine: Machine, expr: &Expr)
    requires
        machine.awaiting is None,
        balanced(machine.frames, machine.values.len() as int + 1),
    ensures
        sound(evaluate(machine, expr).machine),
{
    let frames = machine.frames;
    let count = machine.values.len() as int;
    match expr {
        Expr::Literal(literal) => {
            lemma_settled_sound(machine, literal_value(literal@));
        },
        Expr::Grouping(inner) => {
            lemma_with(frames, Frame::Evaluate(&**inner), count);
        },
        Expr::Unary(operator, right) => {
            lemma_with(frames, Frame::Unary(operator), count + 1);
            lemma_with(frames.push(Frame::Unary(operator)), Frame::Evaluate(&**right), count);
        },
        Expr::Binary(left, operator, right) => {
            lemma_with(frames, Frame::Apply(operator), count + 2);
            lemma_with(frames.push(Frame::Apply(operator)), Frame::Evaluate(&**right), count + 1);
            lemma_with(
                frames.push(Frame::Apply(operator)).push(Frame::Evaluate(&**right)),
                Frame::Evaluate(&**left),
                count,
            );
        },
        Expr::Logical { left, operator, right } => {
            lemma_with(frames, Frame::Logical(operator), count + 2);
            lemma_with(frames.push(Frame::Logical(operator)), Frame::Evaluate(&**right), count + 1);
            lemma_with(
                frames.push(Frame::Logical(operator)).push(Frame::Evaluate(&**right)),
                Frame::Evaluate(&**left),
                count,
            );
        },
        Expr::Condition(condition, inner_true, inner_false) => {
            let choose = Frame::Choose(&**inner_true, &**inner_false);
            lemma_with(frames, choose, count + 1);
            lemma_with(frames.push(choose), Frame::Evaluate(&**condition), count);
        },
        Expr::Variable(name) => {
            lemma_failed_sound(machine, undefined(*name), count + 1);
        },
        Expr::Assign(name, value) => {
            lemma_with(frames, Frame::Assign(name), count + 1);
            lemma_with(frames.push(Frame::Assign(name)), Frame::Evaluate(&**value), count);
        },
    }
}

/// The branch of a choice that is not taken is never evaluated: of the two
/// expressions, only the one chosen is left to do.
pub proof fn lemma_choice(machine: Machine, inner_true: &Expr, inner_false: &Expr)
    requires
        machine.awaiting is None,
        machine.frames.len() > 0,
        machine.frames.last() == Frame::Choose(inner_true, inner_false),
    ensures
        step(machine, Reply::Nothing).request == RequestView::Continue,
        step(machine, Reply::Nothing).machine.frames == machine.frames.drop_last().push(
            Frame::Evaluate(
                if truthy(machine.values.last()) {
                    inner_true
                } else {
                    inner_false
                },
            ),
        ),
        step(machine, Reply::Nothing).machine.scopes == machine.scopes,
{
}

/// With every block closed on the way, as many scopes stay open beyond
/// the blocks as before.
pub proof fn lemma_unwound_scopes(frames: Seq<Frame>, scopes: Seq<Scope>)
    requires
        blocks(frames) < scopes.len(),
    ensures
        unwound(frames, scopes).1.len() - blocks(unwound(frames, scopes).0) == scopes.len() - blocks(
            frames,
        ),
        blocks(unwound(frames, scopes).0) < unwound(frames, scopes).1.len(),
    decreases frames.len(),
{
    if frames.len() > 0 {
        match frames.last() {
            Frame::Program(_, _) => {},
            Frame::Block(_, _) => {
                lemma_blocks(frames.drop_last());
                lemma_unwound_scopes(frames.drop_last(), left(scopes));
            },
            _ => {
                lemma_unwound_scopes(frames.drop_last(), scopes);
            },
        }
    }
}

/// The number of open blocks is not negative.
pub proof fn lemma_blocks(frames: Seq<Frame>)
    ensures
        blocks(frames) >= 0,
    decreases frames.len(),
{
    if frames.len() > 0 {
        lemma_blocks(frames.drop_last());
    }
}

/// Every block that is entered is left again, on every way out: through
/// each step, as many scopes are open as blocks, and the scopes that were
/// open before the program began.
pub proof fn lemma_step_scopes(machine: Machine, reply: Reply)
    requires
        blocks(machine.frames) < machine.scopes.len(),
    ensures
        step(machine, reply).machine.scopes.len() - blocks(step(machine, reply).machine.frames)
            == machine.scopes.len() - blocks(machine.frames),
        blocks(step(machine, reply).machine.frames) < step(machine, reply).machine.scopes.len(),
{
    if machine.awaiting is None && machine.frames.len() > 0 {
        let frame = machine.frames.last();
        let below = machine.frames.drop_last();
        let resting = Machine { frames: below, ..machine };
        let after = run(resting, frame).machine;
        lemma_blocks(below);
        assert(below.push(frame) =~= machine.frames);
        lemma_run_scopes(resting, frame);
    }
}

/// The same of an error.
pub proof fn lemma_failed_scopes(machine: Machine, error: IErrorView)
    requires
        blocks(machine.frames) < machine.scopes.len(),
    ensures
        failed(machine, error).machine.scopes.len() - blocks(failed(machine, error).machine.frames)
            == machine.scopes.len() - blocks(machine.frames),
        blocks(failed(machine, error).machine.frames) < failed(machine, error).machine.scopes.len(),
{
    lemma_unwound_scopes(machine.frames, machine.scopes);
}

/// The same of a piece that has been taken off: where it is a block, its
/// scope is still open.
pub proof fn lemma_run_scopes(machine: Machine, frame: Frame)
    requires
        blocks(machine.frames.push(frame)) < machine.scopes.len(),
    ensures
        run(machine, frame).machine.scopes.len() - blocks(run(machine, frame).machine.frames)
            == machine.scopes.len() - blocks(machine.frames.push(frame)),
        blocks(run(machine, frame).machine.frames) < run(machine, frame).machine.scopes.len(),
{
    let frames = machine.frames;
    let rest = dropped(machine);
    assert(frames.push(frame).drop_last() =~= frames);
    lemma_blocks(frames);
    reveal_with_fuel(blocks, 4);
    assert forall|one: Frame| #[trigger] frames.push(one).drop_last() == frames by {
        assert(frames.push(one).drop_last() =~= frames);
    }
    assert forall|one: Frame, two: Frame| #[trigger]
        frames.push(one).push(two).drop_last() == frames.push(one) by {
        assert(frames.push(one).push(two).drop_last() =~= frames.push(one));
    }
    assert forall|one: Frame, two: Frame, three: Frame| #[trigger]
        frames.push(one).push(two).push(three).drop_last() == frames.push(one).push(two) by {
        assert(frames.push(one).push(two).push(three).drop_last() =~= frames.push(one).push(two));
    }
    match frame {
        Frame::Execute(stmt) => {
            match stmt {
                Stmt::Block(statements) => {},
                _ => {},
            }
        },
        Frame::Evaluate(expr) => {
            match expr {
                Expr::Variable(name) => {
                    lemma_failed_scopes(machine, undefined(*name));
                },
                _ => {},
            }
        },
        Frame::Unary(operator) => {
            match unary_outcome(*operator, machine.values.last()) {
                Ok(pending) => {},
                Err(error) => {
                    lemma_failed_scopes(rest, error);
                },
            }
        },
        Frame::Apply(operator) => {
            match binary_outcome(*operator, rest.values.last(), machine.values.last()) {
                Ok(pending) => {},
                Err(error) => {
                    lemma_failed_scopes(dropped(rest), error);
                },
            }
        },
        Frame::Logical(operator) => {
            match logical_outcome(*operator, rest.values.last(), machine.values.last()) {
                Ok(pending) => {},
                Err(error) => {
                    lemma_failed_scopes(dropped(rest), error);
                },
            }
        },
        Frame::Assign(name) => {
            lemma_failed_scopes(rest, undefined(*name));
            crate::environment::lemma_holder(machine.scopes, name.lexeme@);
        },
        _ => {},
    }
}

} // verus!
