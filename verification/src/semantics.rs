//! The meaning of expressions, statements and programs, and the proof that the
//! steps of the interpreter arrive at it.

use crate::environment::{assigned, defined, entered, holder, left, lookup, Scope};
use crate::expr::{Expr, Stmt};
use crate::machine::{
    answers, binary_outcome, concluded, evaluate, failed, go, holding, logical_outcome, run,
    settled, step, unary_outcome, undefined, unwound, with, within, Frame, IErrorView, Machine,
    PrintableView, Reply, RequestView, Transition,
};
use crate::value::{literal_value, text_of, truthy, PendingView, QuestionView, ValueView};
use vstd::prelude::*;

verus! {

/// A host, as far as the library can know it: what it answers to each
/// question.
pub type Host = spec_fn(QuestionView) -> Reply;

/// Whether a host answers every question with a reply that fits it: a
/// truth value for a comparison, and a number for every other question.
pub open spec fn fitting(host: Host) -> bool {
    forall|question: QuestionView| (#[trigger] answers(question, host(question))) is Some
}

/// The value that an operation comes to with the help of the host.
pub open spec fn resolved(pending: PendingView, host: Host) -> ValueView {
    match pending {
        PendingView::Ready(value) => value,
        PendingView::Ask(question) => answers(question, host(question)).unwrap(),
    }
}

/// What the evaluation of an expression comes to: its value or its error,
/// and the scopes behind it.
pub struct Evaluated {
    pub outcome: Result<ValueView, IErrorView>,
    pub scopes: Seq<Scope>,
}

/// An operation on values that have been evaluated.
pub open spec fn applied(
    outcome: Result<PendingView, IErrorView>,
    scopes: Seq<Scope>,
    host: Host,
) -> Evaluated {
    Evaluated {
        outcome: match outcome {
            Ok(pending) => Ok(resolved(pending, host)),
            Err(error) => Err(error),
        },
        scopes,
    }
}

/// The value of an expression in the given scopes, with the help of the
/// host: the meaning of the language, said from the whole to the parts.
///
/// The operands of an operator are evaluated from left to right, and an
/// error in one of them is the error of the whole. Of a choice, only the
/// branch that is chosen is evaluated. An assignment changes the scopes
/// and has the value that it assigns.
pub open spec fn eval(expr: Expr, scopes: Seq<Scope>, host: Host) -> Evaluated
    decreases expr,
{
    match expr {
        Expr::Literal(literal) => applied(Ok(literal_value(literal@)), scopes, host),
        Expr::Grouping(inner) => eval(*inner, scopes, host),
        Expr::Unary(operator, right) => {
            let operand = eval(*right, scopes, host);
            match operand.outcome {
                Ok(value) => applied(unary_outcome(operator, value), operand.scopes, host),
                Err(_) => operand,
            }
        },
        Expr::Binary(left, operator, right) => {
            let first = eval(*left, scopes, host);
            match first.outcome {
                Ok(left_value) => {
                    let second = eval(*right, first.scopes, host);
                    match second.outcome {
                        Ok(right_value) => applied(
                            binary_outcome(operator, left_value, right_value),
                            second.scopes,
                            host,
                        ),
                        Err(_) => second,
                    }
                },
                Err(_) => first,
            }
        },
        Expr::Logical { left, operator, right } => {
            let first = eval(*left, scopes, host);
            match first.outcome {
                Ok(left_value) => {
                    let second = eval(*right, first.scopes, host);
                    match second.outcome {
                        Ok(right_value) => applied(
                            logical_outcome(operator, left_value, right_value),
                            second.scopes,
                            host,
                        ),
                        Err(_) => second,
                    }
                },
                Err(_) => first,
            }
        },
        Expr::Condition(condition, inner_true, inner_false) => {
            let decided = eval(*condition, scopes, host);
            match decided.outcome {
                Ok(value) => if truthy(value) {
                    eval(*inner_true, decided.scopes, host)
                } else {
                    eval(*inner_false, decided.scopes, host)
                },
                Err(_) => decided,
            }
        },
        Expr::Variable(name) => Evaluated {
            outcome: match lookup(scopes, name.lexeme@) {
                Some(value) => Ok(value),
                None => Err(undefined(name)),
            },
            scopes,
        },
        Expr::Assign(name, value) => {
            let given = eval(*value, scopes, host);
            match given.outcome {
                Ok(value) => match holder(given.scopes, name.lexeme@) {
                    Some(_) => Evaluated {
                        outcome: Ok(value),
                        scopes: assigned(given.scopes, name.lexeme@, value),
                    },
                    None => Evaluated { outcome: Err(undefined(name)), scopes: given.scopes },
                },
                Err(_) => given,
            }
        },
    }
}

/// How many steps an operation takes once its operands are there: one,
/// and one more for the answer where it asks the host.
pub open spec fn apply_cost(outcome: Result<PendingView, IErrorView>) -> nat {
    match outcome {
        Ok(PendingView::Ask(_)) => 2,
        _ => 1,
    }
}

/// How many steps the evaluation of an expression takes.
pub open spec fn cost(expr: Expr, scopes: Seq<Scope>, host: Host) -> nat
    decreases expr,
{
    match expr {
        Expr::Literal(literal) => apply_cost(Ok(literal_value(literal@))),
        Expr::Grouping(inner) => 1 + cost(*inner, scopes, host),
        Expr::Unary(operator, right) => {
            let operand = eval(*right, scopes, host);
            1 + cost(*right, scopes, host) + match operand.outcome {
                Ok(value) => apply_cost(unary_outcome(operator, value)),
                Err(_) => 0nat,
            }
        },
        Expr::Binary(left, operator, right) => {
            let first = eval(*left, scopes, host);
            1 + cost(*left, scopes, host) + match first.outcome {
                Ok(left_value) => {
                    let second = eval(*right, first.scopes, host);
                    cost(*right, first.scopes, host) + match second.outcome {
                        Ok(right_value) => apply_cost(
                            binary_outcome(operator, left_value, right_value),
                        ),
                        Err(_) => 0nat,
                    }
                },
                Err(_) => 0nat,
            }
        },
        Expr::Logical { left, operator, right } => {
            let first = eval(*left, scopes, host);
            1 + cost(*left, scopes, host) + match first.outcome {
                Ok(left_value) => {
                    let second = eval(*right, first.scopes, host);
                    cost(*right, first.scopes, host) + match second.outcome {
                        Ok(right_value) => apply_cost(
                            logical_outcome(operator, left_value, right_value),
                        ),
                        Err(_) => 0nat,
                    }
                },
                Err(_) => 0nat,
            }
        },
        Expr::Condition(condition, inner_true, inner_false) => {
            let decided = eval(*condition, scopes, host);
            1 + cost(*condition, scopes, host) + match decided.outcome {
                Ok(value) => 1nat + if truthy(value) {
                    cost(*inner_true, decided.scopes, host)
                } else {
                    cost(*inner_false, decided.scopes, host)
                },
                Err(_) => 0nat,
            }
        },
        Expr::Variable(name) => 1,
        Expr::Assign(name, value) => {
            let given = eval(*value, scopes, host);
            1 + cost(*value, scopes, host) + match given.outcome {
                Ok(_) => 1nat,
                Err(_) => 0nat,
            }
        },
    }
}

/// What the host hands to the next step: the answer to the question that
/// is open, if one is.
pub open spec fn reply_to(machine: Machine, host: Host) -> Reply {
    match machine.awaiting {
        Some(question) => host(question),
        None => Reply::Nothing,
    }
}

/// What a run with the host has come to: the state, what the host has
/// been handed on the way to write out or to report, in its order, and
/// whether the program has run to its end.
pub struct Driven<'a> {
    pub machine: Machine<'a>,
    pub trace: Seq<RequestView>,
    pub finished: bool,
}

/// A run that has come to a state and has handed the host nothing.
pub open spec fn quiet<'a>(machine: Machine<'a>) -> Driven<'a> {
    Driven { machine, trace: seq![], finished: false }
}

/// A run with the host: up to `count` steps, one behind the other, each
/// with the answer of the host to the question before it. What the host is
/// handed to write out or to report is noted. The run ends early where the
/// program has run to its end.
pub open spec fn drive<'a>(machine: Machine<'a>, host: Host, count: nat) -> Driven<'a>
    decreases count,
{
    if count == 0 {
        quiet(machine)
    } else {
        let first = step(machine, reply_to(machine, host));
        match first.request {
            RequestView::Finished => Driven { machine: first.machine, trace: seq![], finished: true },
            RequestView::Continue | RequestView::Ask(_) => drive(
                first.machine,
                host,
                (count - 1) as nat,
            ),
            event => {
                let rest = drive(first.machine, host, (count - 1) as nat);
                Driven { trace: seq![event] + rest.trace, ..rest }
            },
        }
    }
}

/// One run behind another.
pub open spec fn followed<'a>(first: Driven<'a>, second: Driven<'a>) -> Driven<'a> {
    if first.finished {
        first
    } else {
        Driven {
            machine: second.machine,
            trace: first.trace + second.trace,
            finished: second.finished,
        }
    }
}

/// A run of so many steps and so many more is the first run and then,
/// unless the program has run to its end, the second one.
pub proof fn lemma_drive_more(machine: Machine, host: Host, first: nat, second: nat)
    ensures
        drive(machine, host, first + second) == followed(
            drive(machine, host, first),
            drive(drive(machine, host, first).machine, host, second),
        ),
    decreases first,
{
    if first > 0 {
        let one = step(machine, reply_to(machine, host));
        assert((first + second - 1) as nat == (first - 1) as nat + second);
        match one.request {
            RequestView::Finished => {},
            RequestView::Continue | RequestView::Ask(_) => {
                lemma_drive_more(one.machine, host, (first - 1) as nat, second);
            },
            event => {
                lemma_drive_more(one.machine, host, (first - 1) as nat, second);
                let before = drive(one.machine, host, (first - 1) as nat);
                let behind = drive(before.machine, host, second);
                assert(seq![event] + (before.trace + behind.trace) =~= (seq![event] + before.trace)
                    + behind.trace);
            },
        }
    } else {
        let behind = drive(machine, host, second);
        assert(Seq::<RequestView>::empty() + behind.trace =~= behind.trace);
    }
}

/// The piece that was put on last is the one that the next step runs.
pub proof fn lemma_step_runs(machine: Machine, frame: Frame, reply: Reply)
    requires
        machine.awaiting is None,
    ensures
        step(with(machine, frame), reply) == run(machine, frame),
{
    let pushed = with(machine, frame);
    assert(pushed.frames.drop_last() =~= machine.frames);
    assert(Machine { frames: pushed.frames.drop_last(), ..pushed } == machine);
}

/// Whether a piece belongs to an expression that is being evaluated.
pub open spec fn of_expression(frame: Frame) -> bool {
    !(frame is Program) && !(frame is Block)
}

/// An error in the midst of an expression gives up what was left to do of
/// the expression, and then what was left to do before it.
pub proof fn lemma_unwound_through(frames: Seq<Frame>, frame: Frame, scopes: Seq<Scope>)
    requires
        of_expression(frame),
    ensures
        unwound(frames.push(frame), scopes) == unwound(frames, scopes),
{
    assert(frames.push(frame).drop_last() =~= frames);
}

/// Where the evaluation of an expression arrives: with its value on top of
/// the values, or at its error, which the host has been handed.
pub open spec fn arrived<'a>(machine: Machine<'a>, evaluated: Evaluated) -> Driven<'a> {
    match evaluated.outcome {
        Ok(value) => quiet(holding(within(machine, evaluated.scopes), value)),
        Err(error) => Driven {
            machine: failed(within(machine, evaluated.scopes), error).machine,
            trace: seq![RequestView::Report(error)],
            finished: false,
        },
    }
}

/// A run that begins with a step which hands the host nothing goes on
/// behind that step.
pub proof fn lemma_first(machine: Machine, frame: Frame, host: Host, count: nat)
    requires
        machine.awaiting is None,
        run(machine, frame).request == RequestView::Continue,
    ensures
        drive(with(machine, frame), host, 1 + count) == drive(
            run(machine, frame).machine,
            host,
            count,
        ),
{
    lemma_step_runs(machine, frame, Reply::Nothing);
    assert((1 + count - 1) as nat == count);
}

/// A run that has come to a state and has handed the host nothing goes on
/// from there.
pub proof fn lemma_then(start: Machine, host: Host, first: nat, middle: Machine, second: nat)
    requires
        drive(start, host, first) == quiet(middle),
    ensures
        drive(start, host, first + second) == drive(middle, host, second),
{
    lemma_drive_more(start, host, first, second);
    let behind = drive(middle, host, second);
    assert(Seq::<RequestView>::empty() + behind.trace =~= behind.trace);
}

/// An operation whose operands are there: in one step, or in two with the
/// answer of the host, its value is on top of the values of `base`, or
/// the run is at its error.
pub proof fn lemma_applies(
    start: Machine,
    base: Machine,
    outcome: Result<PendingView, IErrorView>,
    host: Host,
)
    requires
        fitting(host),
        start.awaiting is None,
        base.awaiting is None,
        step(start, Reply::Nothing) == concluded(base, outcome),
    ensures
        drive(start, host, apply_cost(outcome)) == arrived(
            base,
            applied(outcome, base.scopes, host),
        ),
{
    reveal_with_fuel(drive, 3);
    assert(within(base, base.scopes) == base);
    match outcome {
        Ok(PendingView::Ask(question)) => {
            let asked = Machine { awaiting: Some(question), ..base };
            let value = answers(question, host(question)).unwrap();
            assert(answers(question, host(question)) is Some);
            assert(Machine { awaiting: None, ..holding(asked, value) } == holding(base, value));
        },
        Ok(PendingView::Ready(_)) => {},
        Err(error) => {
            assert(seq![RequestView::Report(error)] + Seq::<RequestView>::empty() =~= seq![
                RequestView::Report(error),
            ]);
        },
    }
}

/// An error in the midst of an expression is the error of the run, with
/// all given up that was left to do of the expression.
pub proof fn lemma_failed_through(
    machine: Machine,
    frame: Frame,
    scopes: Seq<Scope>,
    error: IErrorView,
)
    requires
        of_expression(frame),
    ensures
        failed(within(with(machine, frame), scopes), error) == failed(
            within(machine, scopes),
            error,
        ),
{
    lemma_unwound_through(machine.frames, frame, scopes);
}

/// The same with one more value waiting.
pub proof fn lemma_failed_holding(
    machine: Machine,
    value: ValueView,
    scopes: Seq<Scope>,
    error: IErrorView,
)
    ensures
        failed(within(holding(machine, value), scopes), error) == failed(
            within(machine, scopes),
            error,
        ),
{
}

/// The machine evaluates an expression to what it means: from a state in
/// which the expression is the next piece to do, the run with the host
/// arrives, after as many steps as the evaluation takes, at the state with
/// the value of the expression on top of the values and all else as it
/// was, but for the scopes, which are those behind the evaluation; or, where
/// the evaluation fails, at its error.
pub proof fn lemma_evaluates(machine: Machine, expr: &Expr, host: Host)
    requires
        fitting(host),
        machine.awaiting is None,
    ensures
        drive(
            with(machine, Frame::Evaluate(expr)),
            host,
            cost(*expr, machine.scopes, host),
        ) == arrived(machine, eval(*expr, machine.scopes, host)),
    decreases expr,
{
    let start = with(machine, Frame::Evaluate(expr));
    let scopes = machine.scopes;
    match expr {
        Expr::Literal(literal) => {
            lemma_step_runs(machine, Frame::Evaluate(expr), Reply::Nothing);
            lemma_applies(start, machine, Ok(literal_value(literal@)), host);
        },
        Expr::Grouping(inner) => {
            lemma_first(machine, Frame::Evaluate(expr), host, cost(**inner, scopes, host));
            lemma_evaluates(machine, &**inner, host);
        },
        Expr::Variable(name) => {
            reveal_with_fuel(drive, 2);
            lemma_step_runs(machine, Frame::Evaluate(expr), Reply::Nothing);
            assert(within(machine, scopes) == machine);
        },
        Expr::Unary(operator, right) => {
            let below = with(machine, Frame::Unary(operator));
            let operand = eval(**right, scopes, host);
            let first = cost(**right, scopes, host);
            lemma_first(machine, Frame::Evaluate(expr), host, first);
            lemma_evaluates(below, &**right, host);
            match operand.outcome {
                Ok(value) => {
                    let base = within(machine, operand.scopes);
                    let full = holding(base, value);
                    let outcome = unary_outcome(*operator, value);
                    assert(holding(within(below, operand.scopes), value) == with(
                        full,
                        Frame::Unary(operator),
                    ));
                    lemma_step_runs(full, Frame::Unary(operator), Reply::Nothing);
                    assert(full.values.drop_last() =~= base.values);
                    assert(crate::machine::dropped(full) == base);
                    lemma_applies(with(full, Frame::Unary(operator)), base, outcome, host);
                    lemma_then(
                        start,
                        host,
                        1 + first,
                        with(full, Frame::Unary(operator)),
                        apply_cost(outcome),
                    );
                    assert(within(base, operand.scopes) == base);
                },
                Err(error) => {
                    lemma_failed_through(machine, Frame::Unary(operator), operand.scopes, error);
                },
            }
        },
        Expr::Binary(left, operator, right) => {
            lemma_operator(machine, expr, host);
        },
        Expr::Logical { left, operator, right } => {
            lemma_operator(machine, expr, host);
        },
        Expr::Condition(condition, inner_true, inner_false) => {
            let choose = Frame::Choose(&**inner_true, &**inner_false);
            let below = with(machine, choose);
            let decided = eval(**condition, scopes, host);
            let first = cost(**condition, scopes, host);
            lemma_first(machine, Frame::Evaluate(expr), host, first);
            lemma_evaluates(below, &**condition, host);
            match decided.outcome {
                Ok(value) => {
                    let base = within(machine, decided.scopes);
                    let full = holding(base, value);
                    let chosen = if truthy(value) {
                        &**inner_true
                    } else {
                        &**inner_false
                    };
                    let rest = cost(*chosen, decided.scopes, host);
                    assert(holding(within(below, decided.scopes), value) == with(full, choose));
                    assert(full.values.drop_last() =~= base.values);
                    assert(crate::machine::dropped(full) == base);
                    lemma_first(full, choose, host, rest);
                    lemma_evaluates(base, chosen, host);
                    lemma_then(start, host, 1 + first, with(full, choose), 1 + rest);
                    assert(within(base, eval(*chosen, decided.scopes, host).scopes) == within(
                        machine,
                        eval(*chosen, decided.scopes, host).scopes,
                    ));
                },
                Err(error) => {
                    lemma_failed_through(machine, choose, decided.scopes, error);
                },
            }
        },
        Expr::Assign(name, value) => {
            let below = with(machine, Frame::Assign(name));
            let given = eval(**value, scopes, host);
            let first = cost(**value, scopes, host);
            lemma_first(machine, Frame::Evaluate(expr), host, first);
            lemma_evaluates(below, &**value, host);
            match given.outcome {
                Ok(found) => {
                    let base = within(machine, given.scopes);
                    let full = holding(base, found);
                    assert(holding(within(below, given.scopes), found) == with(
                        full,
                        Frame::Assign(name),
                    ));
                    assert(full.values.drop_last() =~= base.values);
                    assert(crate::machine::dropped(full) == base);
                    reveal_with_fuel(drive, 2);
                    lemma_step_runs(full, Frame::Assign(name), Reply::Nothing);
                    lemma_then(start, host, 1 + first, with(full, Frame::Assign(name)), 1);
                    match holder(given.scopes, name.lexeme@) {
                        Some(_) => {
                            assert(within(full, assigned(given.scopes, name.lexeme@, found))
                                == holding(
                                within(machine, assigned(given.scopes, name.lexeme@, found)),
                                found,
                            ));
                        },
                        None => {
                            assert(within(base, given.scopes) == base);
                        },
                    }
                },
                Err(error) => {
                    lemma_failed_through(machine, Frame::Assign(name), given.scopes, error);
                },
            }
        },
    }
}

/// What an operator between two operands comes to, once both are there.
pub open spec fn joined(expr: Expr, left: ValueView, right: ValueView) -> Result<
    PendingView,
    IErrorView,
> {
    match expr {
        Expr::Logical { left: _, operator, right: _ } => logical_outcome(operator, left, right),
        Expr::Binary(_, operator, _) => binary_outcome(operator, left, right),
        _ => Ok(PendingView::Ready(left)),
    }
}

/// The case of an operator between two operands.
proof fn lemma_operator(machine: Machine, expr: &Expr, host: Host)
    requires
        fitting(host),
        machine.awaiting is None,
        *expr is Binary || *expr is Logical,
    ensures
        drive(
            with(machine, Frame::Evaluate(expr)),
            host,
            cost(*expr, machine.scopes, host),
        ) == arrived(machine, eval(*expr, machine.scopes, host)),
    decreases expr, 0nat,
{
    let start = with(machine, Frame::Evaluate(expr));
    let scopes = machine.scopes;
    let (left, right, apply): (&Expr, &Expr, Frame) = match expr {
        Expr::Binary(left, operator, right) => (&**left, &**right, Frame::Apply(operator)),
        Expr::Logical { left, operator, right } => (&**left, &**right, Frame::Logical(operator)),
        _ => (expr, expr, Frame::Discard),
    };
    let below = with(machine, apply);
    let beside = with(below, Frame::Evaluate(right));
    let first = eval(*left, scopes, host);
    let first_cost = cost(*left, scopes, host);
    lemma_first(machine, Frame::Evaluate(expr), host, first_cost);
    lemma_evaluates(beside, left, host);
    match first.outcome {
        Ok(left_value) => {
            let base = within(machine, first.scopes);
            let one = holding(base, left_value);
            let middle = with(one, apply);
            let second = eval(*right, first.scopes, host);
            let second_cost = cost(*right, first.scopes, host);
            assert(holding(within(beside, first.scopes), left_value) == with(
                middle,
                Frame::Evaluate(right),
            ));
            lemma_evaluates(middle, right, host);
            lemma_then(start, host, 1 + first_cost, with(middle, Frame::Evaluate(right)), second_cost);
            match second.outcome {
                Ok(right_value) => {
                    let ground = within(machine, second.scopes);
                    let two = holding(holding(ground, left_value), right_value);
                    let outcome = joined(*expr, left_value, right_value);
                    assert(holding(within(middle, second.scopes), right_value) == with(two, apply));
                    lemma_step_runs(two, apply, Reply::Nothing);
                    assert(two.values.drop_last() =~= holding(ground, left_value).values);
                    assert(crate::machine::dropped(two) == holding(ground, left_value));
                    assert(holding(ground, left_value).values.drop_last() =~= ground.values);
                    assert(crate::machine::dropped(holding(ground, left_value)) == ground);
                    lemma_applies(with(two, apply), ground, outcome, host);
                    lemma_then(
                        start,
                        host,
                        1 + first_cost + second_cost,
                        with(two, apply),
                        apply_cost(outcome),
                    );
                    assert(within(ground, second.scopes) == ground);
                },
                Err(error) => {
                    lemma_failed_through(one, apply, second.scopes, error);
                    lemma_failed_holding(base, left_value, second.scopes, error);
                    assert(within(base, second.scopes) == within(machine, second.scopes));
                },
            }
        },
        Err(error) => {
            lemma_failed_through(below, Frame::Evaluate(right), first.scopes, error);
            lemma_failed_through(machine, apply, first.scopes, error);
        },
    }
}

/// What the execution of a statement comes to: the error that ended it,
/// if one did, the scopes behind it, and what the host was handed to
/// write out and, at the end, to report.
pub struct Executed {
    pub failure: Option<IErrorView>,
    pub scopes: Seq<Scope>,
    pub trace: Seq<RequestView>,
}

/// A statement that has ended well and has written nothing.
pub open spec fn passed(scopes: Seq<Scope>) -> Executed {
    Executed { failure: None, scopes, trace: seq![] }
}

/// A statement that an error has ended.
pub open spec fn broken(error: IErrorView, scopes: Seq<Scope>) -> Executed {
    Executed { failure: Some(error), scopes, trace: seq![RequestView::Report(error)] }
}

/// What is written out for a value.
pub open spec fn printable(value: ValueView) -> PrintableView {
    match value {
        ValueView::Number(bits) => PrintableView::Number(bits),
        other => PrintableView::Text(text_of(other)),
    }
}

/// The second piece of an execution, behind the first.
pub open spec fn continued(first: Executed, second: Option<Executed>) -> Option<Executed> {
    match second {
        Some(second) => Some(Executed { trace: first.trace + second.trace, ..second }),
        None => None,
    }
}

/// The execution of a statement in the given scopes, with the help of the
/// host: the meaning of the language, said from the whole to the parts.
///
/// A loop may go on for ever, so the execution is given a number of
/// rounds: each round of a loop uses one up, and with none left there is
/// no outcome.
pub open spec fn exec(stmt: Stmt, scopes: Seq<Scope>, host: Host, rounds: nat) -> Option<Executed>
    decreases rounds, stmt, 0nat,
{
    match stmt {
        Stmt::Expression(expr) => {
            let value = eval(expr, scopes, host);
            match value.outcome {
                Ok(_) => Some(passed(value.scopes)),
                Err(error) => Some(broken(error, value.scopes)),
            }
        },
        Stmt::Print(expr) => {
            let value = eval(expr, scopes, host);
            match value.outcome {
                Ok(found) => Some(
                    Executed {
                        failure: None,
                        scopes: value.scopes,
                        trace: seq![RequestView::Print(printable(found))],
                    },
                ),
                Err(error) => Some(broken(error, value.scopes)),
            }
        },
        Stmt::Var(name, initializer) => match initializer {
            Some(expr) => {
                let value = eval(expr, scopes, host);
                match value.outcome {
                    Ok(found) => Some(passed(defined(value.scopes, name.lexeme@, found))),
                    Err(error) => Some(broken(error, value.scopes)),
                }
            },
            None => Some(passed(defined(scopes, name.lexeme@, ValueView::Nil))),
        },
        Stmt::Block(statements) => exec_block(statements, 0, entered(scopes), host, rounds),
        Stmt::If { condition, then_branch, else_branch } => {
            let decided = eval(condition, scopes, host);
            match decided.outcome {
                Ok(found) => if truthy(found) {
                    exec(*then_branch, decided.scopes, host, rounds)
                } else {
                    match else_branch {
                        Some(branch) => exec(*branch, decided.scopes, host, rounds),
                        None => Some(passed(decided.scopes)),
                    }
                },
                Err(error) => Some(broken(error, decided.scopes)),
            }
        },
        Stmt::While { condition, body } => if rounds == 0 {
            None
        } else {
            let decided = eval(condition, scopes, host);
            match decided.outcome {
                Ok(found) => if truthy(found) {
                    match exec(*body, decided.scopes, host, (rounds - 1) as nat) {
                        Some(once) => match once.failure {
                            None => continued(
                                once,
                                exec(stmt, once.scopes, host, (rounds - 1) as nat),
                            ),
                            Some(_) => Some(once),
                        },
                        None => None,
                    }
                } else {
                    Some(passed(decided.scopes))
                },
                Err(error) => Some(broken(error, decided.scopes)),
            }
        },
    }
}

/// The execution of the statements of a block from the given one on, in
/// the scopes of the block, which are left at the end: behind the last
/// statement, or behind the error that ends the block.
pub open spec fn exec_block(
    statements: Vec<Stmt>,
    from: nat,
    scopes: Seq<Scope>,
    host: Host,
    rounds: nat,
) -> Option<Executed>
    decreases rounds, statements, statements@.len() - from,
{
    if from >= statements@.len() {
        Some(passed(left(scopes)))
    } else {
        match exec(statements@[from as int], scopes, host, rounds) {
            Some(once) => match once.failure {
                None => continued(once, exec_block(statements, from + 1, once.scopes, host, rounds)),
                Some(error) => Some(Executed { scopes: left(once.scopes), ..once }),
            },
            None => None,
        }
    }
}

/// What the run of a program comes to: the scopes behind it, and what the
/// host was handed to write out and to report.
pub struct Ran {
    pub scopes: Seq<Scope>,
    pub trace: Seq<RequestView>,
}

/// The run of the statements of a program from the given one on. An
/// error ends the statement in which it arises, and the next one follows.
pub open spec fn play(
    statements: Seq<Stmt>,
    from: nat,
    scopes: Seq<Scope>,
    host: Host,
    rounds: nat,
) -> Option<Ran>
    decreases statements.len() - from,
{
    if from >= statements.len() {
        Some(Ran { scopes, trace: seq![] })
    } else {
        match exec(statements[from as int], scopes, host, rounds) {
            Some(once) => match play(statements, from + 1, once.scopes, host, rounds) {
                Some(rest) => Some(Ran { scopes: rest.scopes, trace: once.trace + rest.trace }),
                None => None,
            },
            None => None,
        }
    }
}

/// Where the execution of a statement arrives: at the state before it,
/// but for the scopes, or at its error.
pub open spec fn done<'a>(machine: Machine<'a>, executed: Executed) -> Driven<'a> {
    Driven {
        machine: match executed.failure {
            None => within(machine, executed.scopes),
            Some(error) => failed(within(machine, executed.scopes), error).machine,
        },
        trace: executed.trace,
        finished: false,
    }
}

/// A step that hands the host something to write out or to report.
pub proof fn lemma_event(machine: Machine, frame: Frame, host: Host)
    requires
        machine.awaiting is None,
        run(machine, frame).request is Print || run(machine, frame).request is Report,
    ensures
        drive(with(machine, frame), host, 1) == (Driven {
            machine: run(machine, frame).machine,
            trace: seq![run(machine, frame).request],
            finished: false,
        }),
{
    reveal_with_fuel(drive, 2);
    lemma_step_runs(machine, frame, Reply::Nothing);
    assert(seq![run(machine, frame).request] + Seq::<RequestView>::empty() =~= seq![
        run(machine, frame).request,
    ]);
}

/// A step that hands the host nothing.
pub proof fn lemma_quiet(machine: Machine, frame: Frame, host: Host)
    requires
        machine.awaiting is None,
        run(machine, frame).request == RequestView::Continue,
    ensures
        drive(with(machine, frame), host, 1) == quiet(run(machine, frame).machine),
{
    lemma_first(machine, frame, host, 0);
}

/// An expression at the beginning of a piece of a statement: the run
/// arrives with its value on top of the values and the piece next to do,
/// or at its error.
pub proof fn lemma_evaluates_below(machine: Machine, frame: Frame, expr: &Expr, host: Host)
    requires
        fitting(host),
        machine.awaiting is None,
        of_expression(frame),
    ensures
        drive(
            with(with(machine, frame), Frame::Evaluate(expr)),
            host,
            cost(*expr, machine.scopes, host),
        ) == match eval(*expr, machine.scopes, host).outcome {
            Ok(value) => quiet(
                with(
                    holding(within(machine, eval(*expr, machine.scopes, host).scopes), value),
                    frame,
                ),
            ),
            Err(error) => done(
                machine,
                broken(error, eval(*expr, machine.scopes, host).scopes),
            ),
        },
{
    let evaluated = eval(*expr, machine.scopes, host);
    lemma_evaluates(with(machine, frame), expr, host);
    match evaluated.outcome {
        Ok(value) => {},
        Err(error) => {
            lemma_failed_through(machine, frame, evaluated.scopes, error);
        },
    }
}

/// The machine executes a statement to what it means: from a state in
/// which the statement is the next piece to do, the run with the host
/// arrives, after some number of steps, at the state as it was, but for
/// the scopes, which are those behind the execution, and the host has been
/// handed what the statement writes out; or, where the execution fails,
/// the run arrives at its error.
pub proof fn lemma_executes(machine: Machine, stmt: &Stmt, host: Host, rounds: nat) -> (count: nat)
    requires
        fitting(host),
        machine.awaiting is None,
        exec(*stmt, machine.scopes, host, rounds) is Some,
    ensures
        drive(with(machine, Frame::Execute(stmt)), host, count) == done(
            machine,
            exec(*stmt, machine.scopes, host, rounds).unwrap(),
        ),
    decreases rounds, stmt, 1nat,
{
    match stmt {
        Stmt::Block(statements) => {
            let inner = within(machine, entered(machine.scopes));
            lemma_length(statements);
            let rest = lemma_block(inner, statements, 0, host, rounds);
            lemma_first(machine, Frame::Execute(stmt), host, rest);
            1 + rest
        },
        Stmt::If { condition, then_branch, else_branch } => lemma_branches(
            machine,
            stmt,
            host,
            rounds,
        ),
        Stmt::While { condition, body } => {
            let rest = lemma_loops(machine, stmt, host, rounds);
            lemma_first(machine, Frame::Execute(stmt), host, rest);
            1 + rest
        },
        _ => lemma_simple(machine, stmt, host, rounds),
    }
}

/// The case of a statement without statements in it.
proof fn lemma_simple(machine: Machine, stmt: &Stmt, host: Host, rounds: nat) -> (count: nat)
    requires
        fitting(host),
        machine.awaiting is None,
        *stmt is Expression || *stmt is Print || *stmt is Var,
    ensures
        exec(*stmt, machine.scopes, host, rounds) is Some,
        drive(with(machine, Frame::Execute(stmt)), host, count) == done(
            machine,
            exec(*stmt, machine.scopes, host, rounds).unwrap(),
        ),
{
    let scopes = machine.scopes;
    match stmt {
        Stmt::Expression(expr) => lemma_ends(machine, stmt, expr, Frame::Discard, host, rounds),
        Stmt::Print(expr) => lemma_ends(machine, stmt, expr, Frame::Print, host, rounds),
        Stmt::Var(name, Some(expr)) => lemma_ends(
            machine,
            stmt,
            expr,
            Frame::Define(name),
            host,
            rounds,
        ),
        _ => {
            lemma_quiet(machine, Frame::Execute(stmt), host);
            1
        },
    }
}

/// The case of a statement that evaluates an expression and then does one
/// thing with its value.
proof fn lemma_ends(
    machine: Machine,
    stmt: &Stmt,
    expr: &Expr,
    frame: Frame,
    host: Host,
    rounds: nat,
) -> (count: nat)
    requires
        fitting(host),
        machine.awaiting is None,
        match *stmt {
            Stmt::Expression(inner) => inner == *expr && frame == Frame::Discard,
            Stmt::Print(inner) => inner == *expr && frame == Frame::Print,
            Stmt::Var(name, initializer) => initializer == Some(*expr) && frame == Frame::Define(
                &name,
            ),
            _ => false,
        },
    ensures
        exec(*stmt, machine.scopes, host, rounds) is Some,
        drive(with(machine, Frame::Execute(stmt)), host, count) == done(
            machine,
            exec(*stmt, machine.scopes, host, rounds).unwrap(),
        ),
{
    let scopes = machine.scopes;
    let value = eval(*expr, scopes, host);
    let first = cost(*expr, scopes, host);
    lemma_evaluates_below(machine, frame, expr, host);
    lemma_step_runs(machine, Frame::Execute(stmt), Reply::Nothing);
    assert(run(machine, Frame::Execute(stmt)) == go(
        with(with(machine, frame), Frame::Evaluate(expr)),
    ));
    match value.outcome {
        Ok(found) => {
            let base = within(machine, value.scopes);
            let full = holding(base, found);
            assert(full.values.drop_last() =~= base.values);
            assert(crate::machine::dropped(full) == base);
            if frame is Print {
                lemma_event(full, frame, host);
            } else {
                lemma_quiet(full, frame, host);
            }
            lemma_drive_more(
                with(with(machine, frame), Frame::Evaluate(expr)),
                host,
                first,
                1,
            );
            let behind = drive(with(full, frame), host, 1);
            assert(Seq::<RequestView>::empty() + behind.trace =~= behind.trace);
            lemma_first(machine, Frame::Execute(stmt), host, first + 1);
            1 + first + 1
        },
        Err(error) => {
            lemma_first(machine, Frame::Execute(stmt), host, first);
            1 + first
        },
    }
}

/// The case of a statement with two branches.
proof fn lemma_branches(machine: Machine, stmt: &Stmt, host: Host, rounds: nat) -> (count: nat)
    requires
        fitting(host),
        machine.awaiting is None,
        *stmt is If,
        exec(*stmt, machine.scopes, host, rounds) is Some,
    ensures
        drive(with(machine, Frame::Execute(stmt)), host, count) == done(
            machine,
            exec(*stmt, machine.scopes, host, rounds).unwrap(),
        ),
    decreases rounds, stmt, 0nat,
{
    let scopes = machine.scopes;
    let condition = &stmt->If_condition;
    let then_branch = &*stmt->If_then_branch;
    let else_branch: Option<&Stmt> = match &stmt->If_else_branch {
        Some(otherwise) => Some(&**otherwise),
        None => None,
    };
    let decided = eval(*condition, scopes, host);
    let first = cost(*condition, scopes, host);
    let branch = Frame::Branch(then_branch, else_branch);
    lemma_evaluates_below(machine, branch, condition, host);
    lemma_step_runs(machine, Frame::Execute(stmt), Reply::Nothing);
    assert(run(machine, Frame::Execute(stmt)) == go(
        with(with(machine, branch), Frame::Evaluate(condition)),
    ));
    match decided.outcome {
        Ok(found) => {
            let base = within(machine, decided.scopes);
            let full = holding(base, found);
            assert(full.values.drop_last() =~= base.values);
            assert(crate::machine::dropped(full) == base);
            let rest: nat = if truthy(found) {
                let more = lemma_executes(base, then_branch, host, rounds);
                lemma_first(full, branch, host, more);
                1 + more
            } else {
                match else_branch {
                    Some(otherwise) => {
                        let more = lemma_executes(base, otherwise, host, rounds);
                        lemma_first(full, branch, host, more);
                        1 + more
                    },
                    None => {
                        lemma_quiet(full, branch, host);
                        1
                    },
                }
            };
            lemma_then(
                with(with(machine, branch), Frame::Evaluate(condition)),
                host,
                first,
                with(full, branch),
                rest,
            );
            lemma_first(machine, Frame::Execute(stmt), host, first + rest);
            1 + first + rest
        },
        Err(error) => {
            lemma_first(machine, Frame::Execute(stmt), host, first);
            1 + first
        },
    }
}

/// A vector is no longer than can be counted.
proof fn lemma_length(statements: &Vec<Stmt>)
    ensures
        statements@.len() <= usize::MAX,
{
    vstd::std_specs::vec::axiom_spec_len(statements);
    assert(statements.len() <= usize::MAX);
}

/// The case of a loop, from the evaluation of its condition on.
proof fn lemma_loops(machine: Machine, stmt: &Stmt, host: Host, rounds: nat) -> (count: nat)
    requires
        fitting(host),
        machine.awaiting is None,
        *stmt is While,
        exec(*stmt, machine.scopes, host, rounds) is Some,
    ensures
        drive(
            with(
                with(machine, Frame::Loop(&stmt->While_condition, &*stmt->While_body)),
                Frame::Evaluate(&stmt->While_condition),
            ),
            host,
            count,
        ) == done(machine, exec(*stmt, machine.scopes, host, rounds).unwrap()),
    decreases rounds, stmt, 0nat,
{
    let scopes = machine.scopes;
    let condition = &stmt->While_condition;
    let body = &*stmt->While_body;
    let looping = Frame::Loop(condition, body);
    let decided = eval(*condition, scopes, host);
    let first = cost(*condition, scopes, host);
    lemma_evaluates_below(machine, looping, condition, host);
    match decided.outcome {
        Ok(found) => {
            let base = within(machine, decided.scopes);
            let full = holding(base, found);
            assert(full.values.drop_last() =~= base.values);
            assert(crate::machine::dropped(full) == base);
            let rest: nat = if truthy(found) {
                let inside = with(with(base, looping), Frame::Evaluate(condition));
                let once = exec(*body, decided.scopes, host, (rounds - 1) as nat).unwrap();
                let more = lemma_executes(inside, body, host, (rounds - 1) as nat);
                lemma_first(full, looping, host, more);
                match once.failure {
                    None => {
                        let again = lemma_loops(
                            within(machine, once.scopes),
                            stmt,
                            host,
                            (rounds - 1) as nat,
                        );
                        assert(within(inside, once.scopes) == with(
                            with(within(machine, once.scopes), looping),
                            Frame::Evaluate(condition),
                        ));
                        lemma_drive_more(with(inside, Frame::Execute(body)), host, more, again);
                        lemma_first(full, looping, host, more + again);
                        1 + more + again
                    },
                    Some(error) => {
                        lemma_failed_through(
                            with(base, looping),
                            Frame::Evaluate(condition),
                            once.scopes,
                            error,
                        );
                        lemma_failed_through(base, looping, once.scopes, error);
                        1 + more
                    },
                }
            } else {
                lemma_quiet(full, looping, host);
                1
            };
            lemma_then(
                with(with(machine, looping), Frame::Evaluate(condition)),
                host,
                first,
                with(full, looping),
                rest,
            );
            first + rest
        },
        Err(error) => first,
    }
}

/// The case of a block, from one of its statements on.
proof fn lemma_block(
    machine: Machine,
    statements: &Vec<Stmt>,
    from: usize,
    host: Host,
    rounds: nat,
) -> (count: nat)
    requires
        fitting(host),
        machine.awaiting is None,
        from <= statements@.len() <= usize::MAX,
        exec_block(*statements, from as nat, machine.scopes, host, rounds) is Some,
    ensures
        drive(with(machine, Frame::Block(statements, from)), host, count) == done(
            machine,
            exec_block(*statements, from as nat, machine.scopes, host, rounds).unwrap(),
        ),
    decreases rounds, *statements, statements@.len() - from,
{
    let scopes = machine.scopes;
    if from < statements@.len() {
        let next = Frame::Block(statements, (from + 1) as usize);
        let stmt = &statements@[from as int];
        let below = with(machine, next);
        let once = exec(*stmt, scopes, host, rounds).unwrap();
        let first = lemma_executes(below, stmt, host, rounds);
        lemma_first(machine, Frame::Block(statements, from), host, first);
        match once.failure {
            None => {
                let rest = lemma_block(
                    within(machine, once.scopes),
                    statements,
                    (from + 1) as usize,
                    host,
                    rounds,
                );
                lemma_drive_more(with(below, Frame::Execute(stmt)), host, first, rest);
                lemma_first(machine, Frame::Block(statements, from), host, first + rest);
                1 + first + rest
            },
            Some(error) => {
                assert(machine.frames.push(next).drop_last() =~= machine.frames);
                1 + first
            },
        }
    } else {
        lemma_quiet(machine, Frame::Block(statements, from), host);
        1
    }
}

/// The state in which the statements of a program from the given one on
/// are all that is left to do.
pub open spec fn ahead<'a>(statements: &'a Vec<Stmt>, from: usize, scopes: Seq<Scope>) -> Machine<
    'a,
> {
    Machine {
        frames: seq![Frame::Program(statements, from)],
        values: seq![],
        scopes,
        awaiting: None,
    }
}

/// The state in which nothing is left to do.
pub open spec fn at_rest<'a>(scopes: Seq<Scope>) -> Machine<'a> {
    Machine { frames: seq![], values: seq![], scopes, awaiting: None }
}

/// The machine runs a program to what it means: from the state in which
/// its statements are all that is left to do, the run with the host
/// arrives, after some number of steps, at the end of the program, and the
/// host has been handed what the program writes out and the errors that
/// arise in it, in their order. This holds of every run that ends within
/// the rounds that it is given.
pub proof fn lemma_plays(
    statements: &Vec<Stmt>,
    from: usize,
    scopes: Seq<Scope>,
    host: Host,
    rounds: nat,
) -> (count: nat)
    requires
        fitting(host),
        from <= statements@.len() <= usize::MAX,
        play(statements@, from as nat, scopes, host, rounds) is Some,
    ensures
        drive(ahead(statements, from, scopes), host, count) == (Driven {
            machine: at_rest(play(statements@, from as nat, scopes, host, rounds).unwrap().scopes),
            trace: play(statements@, from as nat, scopes, host, rounds).unwrap().trace,
            finished: true,
        }),
    decreases statements@.len() - from,
{
    let machine = ahead(statements, from, scopes);
    let empty = at_rest(scopes);
    assert(machine.frames.drop_last() =~= empty.frames);
    assert(machine == with(empty, Frame::Program(statements, from)));
    if from < statements@.len() {
        let stmt = &statements@[from as int];
        let below = ahead(statements, (from + 1) as usize, scopes);
        let once = exec(*stmt, scopes, host, rounds).unwrap();
        assert(below == with(empty, Frame::Program(statements, (from + 1) as usize)));
        let first = lemma_executes(below, stmt, host, rounds);
        let rest = lemma_plays(statements, (from + 1) as usize, once.scopes, host, rounds);
        assert(done(below, once).machine == ahead(statements, (from + 1) as usize, once.scopes));
        lemma_drive_more(with(below, Frame::Execute(stmt)), host, first, rest);
        lemma_first(empty, Frame::Program(statements, from), host, first + rest);
        1 + first + rest
    } else {
        reveal_with_fuel(drive, 3);
        lemma_step_runs(empty, Frame::Program(statements, from), Reply::Nothing);
        2
    }
}

/// Of a choice, the branch that is not taken is never evaluated: where
/// the condition has a value, the value of the choice, its error and its
/// change to the scopes are exactly those of the branch that is taken,
/// evaluated alone in the scopes behind the condition. Whatever the other
/// branch holds, an undefined variable or an assignment, has no part in it.
pub proof fn lemma_choice_is_one_branch(
    condition: Expr,
    inner_true: Expr,
    inner_false: Expr,
    scopes: Seq<Scope>,
    host: Host,
)
    requires
        eval(condition, scopes, host).outcome is Ok,
    ensures
        eval(
            Expr::Condition(Box::new(condition), Box::new(inner_true), Box::new(inner_false)),
            scopes,
            host,
        ) == eval(
            if truthy(eval(condition, scopes, host).outcome->Ok_0) {
                inner_true
            } else {
                inner_false
            },
            eval(condition, scopes, host).scopes,
            host,
        ),
        cost(
            Expr::Condition(Box::new(condition), Box::new(inner_true), Box::new(inner_false)),
            scopes,
            host,
        ) == 2 + cost(condition, scopes, host) + cost(
            if truthy(eval(condition, scopes, host).outcome->Ok_0) {
                inner_true
            } else {
                inner_false
            },
            eval(condition, scopes, host).scopes,
            host,
        ),
{
}

/// Whether two chains of scopes hold the same names, scope by scope.
pub open spec fn same_names(first: Seq<Scope>, second: Seq<Scope>) -> bool {
    first.len() == second.len() && forall|k: int|
        0 <= k < first.len() ==> (#[trigger] first[k]).dom() == second[k].dom()
}

/// Whether the first chain of scopes holds the names of the second, scope
/// by scope, and in the innermost scope perhaps more.
pub open spec fn more_names(first: Seq<Scope>, second: Seq<Scope>) -> bool {
    first.len() == second.len() && first.len() >= 1 && second[0].dom().subset_of(first[0].dom())
        && forall|k: int| 1 <= k < first.len() ==> (#[trigger] first[k]).dom() == second[k].dom()
}

/// An assignment defines no name.
pub proof fn lemma_assigned_names(scopes: Seq<Scope>, name: Seq<char>, value: ValueView)
    ensures
        same_names(assigned(scopes, name, value), scopes),
{
    crate::environment::lemma_holder(scopes, name);
    match holder(scopes, name) {
        Some(index) => {
            assert(scopes[index].insert(name, value).dom() =~= scopes[index].dom());
        },
        None => {},
    }
}

/// The evaluation of an expression defines no name and leaves no scope
/// open: behind it, every scope holds the names that it held.
pub proof fn lemma_eval_names(expr: Expr, scopes: Seq<Scope>, host: Host)
    ensures
        same_names(eval(expr, scopes, host).scopes, scopes),
    decreases expr,
{
    match expr {
        Expr::Literal(_) | Expr::Variable(_) => {},
        Expr::Grouping(inner) => {
            lemma_eval_names(*inner, scopes, host);
        },
        Expr::Unary(_, right) => {
            lemma_eval_names(*right, scopes, host);
        },
        Expr::Binary(left, _, right) => {
            lemma_eval_names(*left, scopes, host);
            lemma_eval_names(*right, eval(*left, scopes, host).scopes, host);
        },
        Expr::Logical { left, operator: _, right } => {
            lemma_eval_names(*left, scopes, host);
            lemma_eval_names(*right, eval(*left, scopes, host).scopes, host);
        },
        Expr::Condition(condition, inner_true, inner_false) => {
            lemma_eval_names(*condition, scopes, host);
            let behind = eval(*condition, scopes, host).scopes;
            lemma_eval_names(*inner_true, behind, host);
            lemma_eval_names(*inner_false, behind, host);
        },
        Expr::Assign(name, value) => {
            lemma_eval_names(*value, scopes, host);
            let given = eval(*value, scopes, host);
            match given.outcome {
                Ok(found) => {
                    lemma_assigned_names(given.scopes, name.lexeme@, found);
                },
                Err(_) => {},
            }
        },
    }
}

/// The execution of a statement leaves no scope open and defines names in
/// the innermost scope only: behind it, whether it ended well or with an
/// error, every scope outside holds the names that it held.
pub proof fn lemma_exec_names(stmt: Stmt, scopes: Seq<Scope>, host: Host, rounds: nat)
    requires
        scopes.len() >= 1,
        exec(stmt, scopes, host, rounds) is Some,
    ensures
        more_names(exec(stmt, scopes, host, rounds).unwrap().scopes, scopes),
        stmt is Block ==> same_names(exec(stmt, scopes, host, rounds).unwrap().scopes, scopes),
    decreases rounds, stmt, 0nat,
{
    match stmt {
        Stmt::Expression(expr) => {
            lemma_eval_names(expr, scopes, host);
        },
        Stmt::Print(expr) => {
            lemma_eval_names(expr, scopes, host);
        },
        Stmt::Var(name, initializer) => {
            match initializer {
                Some(expr) => {
                    lemma_eval_names(expr, scopes, host);
                },
                None => {},
            }
        },
        Stmt::Block(statements) => {
            let inside = entered(scopes);
            assert(inside.drop_first() =~= scopes);
            lemma_block_names(statements, 0, inside, host, rounds);
        },
        Stmt::If { condition, then_branch, else_branch } => {
            lemma_eval_names(condition, scopes, host);
            let decided = eval(condition, scopes, host);
            match decided.outcome {
                Ok(found) => {
                    if truthy(found) {
                        lemma_exec_names(*then_branch, decided.scopes, host, rounds);
                    } else {
                        match else_branch {
                            Some(branch) => {
                                lemma_exec_names(*branch, decided.scopes, host, rounds);
                            },
                            None => {},
                        }
                    }
                },
                Err(_) => {},
            }
        },
        Stmt::While { condition, body } => {
            lemma_eval_names(condition, scopes, host);
            let decided = eval(condition, scopes, host);
            match decided.outcome {
                Ok(found) => {
                    if truthy(found) {
                        let once = exec(*body, decided.scopes, host, (rounds - 1) as nat).unwrap();
                        lemma_exec_names(*body, decided.scopes, host, (rounds - 1) as nat);
                        if once.failure is None {
                            lemma_exec_names(stmt, once.scopes, host, (rounds - 1) as nat);
                        }
                    }
                },
                Err(_) => {},
            }
        },
    }
}

/// What is declared inside a block is gone with the block: behind the
/// block, whether it ended well or with an error, every scope holds the
/// names that it held before the block was entered, the innermost one too.
pub proof fn lemma_block_names(
    statements: Vec<Stmt>,
    from: nat,
    scopes: Seq<Scope>,
    host: Host,
    rounds: nat,
)
    requires
        scopes.len() >= 2,
        exec_block(statements, from, scopes, host, rounds) is Some,
    ensures
        same_names(
            exec_block(statements, from, scopes, host, rounds).unwrap().scopes,
            scopes.drop_first(),
        ),
    decreases rounds, statements, statements@.len() - from,
{
    if from < statements@.len() {
        let once = exec(statements@[from as int], scopes, host, rounds).unwrap();
        lemma_exec_names(statements@[from as int], scopes, host, rounds);
        match once.failure {
            None => {
                lemma_block_names(statements, from + 1, once.scopes, host, rounds);
                assert forall|k: int| 0 <= k < scopes.len() - 1 implies (#[trigger] once.scopes.drop_first()[k]).dom()
                    == scopes.drop_first()[k].dom() by {
                    assert(once.scopes.drop_first()[k] == once.scopes[k + 1]);
                    assert(scopes.drop_first()[k] == scopes[k + 1]);
                }
            },
            Some(_) => {
                assert forall|k: int| 0 <= k < scopes.len() - 1 implies (#[trigger] once.scopes.drop_first()[k]).dom()
                    == scopes.drop_first()[k].dom() by {
                    assert(once.scopes.drop_first()[k] == once.scopes[k + 1]);
                    assert(scopes.drop_first()[k] == scopes[k + 1]);
                }
            },
        }
    }
}

/// Chains of scopes that hold the same names find every name in the same
/// scope, or both nowhere.
pub proof fn lemma_same_names_holder(first: Seq<Scope>, second: Seq<Scope>, name: Seq<char>)
    requires
        same_names(first, second),
    ensures
        holder(first, name) == holder(second, name),
    decreases first.len(),
{
    if first.len() > 0 {
        assert(first[0].dom() == second[0].dom());
        if !first[0].contains_key(name) {
            let one = first.drop_first();
            let two = second.drop_first();
            assert forall|k: int| 0 <= k < one.len() implies (#[trigger] one[k]).dom()
                == two[k].dom() by {
                assert(one[k] == first[k + 1]);
                assert(two[k] == second[k + 1]);
            }
            lemma_same_names_holder(one, two, name);
        }
    }
}

/// An inner declaration never leaks outward: behind a block, whether it
/// ended well or with an error, every name is found in the scope in which
/// it was found before the block, and a name that was undefined before is
/// undefined still.
pub proof fn lemma_block_leaks_nothing(
    stmt: Stmt,
    scopes: Seq<Scope>,
    host: Host,
    rounds: nat,
    name: Seq<char>,
)
    requires
        scopes.len() >= 1,
        stmt is Block,
        exec(stmt, scopes, host, rounds) is Some,
    ensures
        exec(stmt, scopes, host, rounds).unwrap().scopes.len() == scopes.len(),
        holder(exec(stmt, scopes, host, rounds).unwrap().scopes, name) == holder(scopes, name),
        lookup(exec(stmt, scopes, host, rounds).unwrap().scopes, name) is None <==> lookup(
            scopes,
            name,
        ) is None,
{
    lemma_exec_names(stmt, scopes, host, rounds);
    lemma_same_names_holder(exec(stmt, scopes, host, rounds).unwrap().scopes, scopes, name);
}

} // verus!
