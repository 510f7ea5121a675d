//! Laws of the grammar: which operator binds tighter, and to which side.

use crate::expr::Expr;
use crate::grammar::{
    assignment, at, expression, infix, infix_rest, is_end, is_operator, join, keyword_literal,
    operand, primary, rank, ternary, ternary_rest, unary, Level, Parsed,
};
use crate::token::{Token, TokenType};
use vstd::prelude::*;

verus! {

/// The expression that a token is by itself, if it is one: a literal or a
/// variable.
pub open spec fn atom(token: Token) -> Option<Expr> {
    match token.token_type {
        TokenType::False | TokenType::True | TokenType::Nil => Some(
            Expr::Literal(keyword_literal(token.token_type)),
        ),
        TokenType::Number | TokenType::String => match token.literal {
            Some(literal) => Some(Expr::Literal(literal)),
            None => None,
        },
        TokenType::Identifier => Some(Expr::Variable(token)),
        _ => None,
    }
}

/// The level of an operator between two operands.
pub open spec fn level_of(kind: TokenType) -> Option<Level> {
    match kind {
        TokenType::Or => Some(Level::Or),
        TokenType::And => Some(Level::And),
        TokenType::BangEqual | TokenType::EqualEqual => Some(Level::Equality),
        TokenType::LessEqual | TokenType::Less | TokenType::Greater | TokenType::GreaterEqual => Some(
            Level::Comparison,
        ),
        TokenType::Minus | TokenType::Plus => Some(Level::Term),
        TokenType::Slash | TokenType::Star => Some(Level::Factor),
        _ => None,
    }
}

/// Whether the first level binds its operands tighter than the second.
pub open spec fn tighter(first: Level, second: Level) -> bool {
    rank(first) < rank(second)
}

/// Whether the token at `pos` goes on with an expression of the level:
/// it is an operator of that level or of a tighter one, or the `?` of a
/// choice where the level is a looser one than that of choices.
pub open spec fn continues(ts: Seq<Token>, pos: int, level: Level) -> bool {
    0 <= pos < ts.len() && !is_end(ts, pos) && (match level_of(ts[pos].token_type) {
        Some(found) => rank(found) <= rank(level),
        None => false,
    } || (ts[pos].token_type == TokenType::QuestionMark && rank(level) >= rank(Level::And)))
}

/// Whether an atom stands at `pos`.
pub open spec fn atom_at(ts: Seq<Token>, pos: int) -> bool {
    0 <= pos < ts.len() && atom(ts[pos]) is Some
}

/// Whether an operator of the level stands at `pos`.
pub open spec fn operator_at(ts: Seq<Token>, pos: int, level: Level) -> bool {
    0 <= pos < ts.len() && level_of(ts[pos].token_type) == Some(level)
}

/// The operators of a level are those whose level it is.
pub proof fn lemma_level_of(level: Level, kind: TokenType)
    ensures
        is_operator(level, kind) <==> level_of(kind) == Some(level),
{
}

/// An atom, and nothing that goes on with it, is the whole expression at
/// every level.
pub proof fn lemma_one(ts: Seq<Token>, pos: int, level: Level)
    requires
        atom_at(ts, pos),
        !continues(ts, pos + 1, level),
    ensures
        infix(ts, pos, level) == Parsed::Done(atom(ts[pos]).unwrap(), 0),
    decreases rank(level),
{
    lemma_operand_one(ts, pos, level);
}

/// The same of the operand of an operator of the level.
pub proof fn lemma_operand_one(ts: Seq<Token>, pos: int, level: Level)
    requires
        atom_at(ts, pos),
        !continues(ts, pos + 1, level),
    ensures
        operand(ts, pos, level) == Parsed::Done(atom(ts[pos]).unwrap(), 0),
        infix(ts, pos, level) == Parsed::Done(atom(ts[pos]).unwrap(), 0),
    decreases rank(level), 0nat,
{
    reveal_with_fuel(operand, 4);
    reveal_with_fuel(infix, 3);
    reveal_with_fuel(infix_rest, 3);
    reveal_with_fuel(ternary, 3);
    reveal_with_fuel(ternary_rest, 2);
    reveal_with_fuel(unary, 2);
    reveal_with_fuel(primary, 1);
    match level {
        Level::Or => lemma_operand_one(ts, pos, Level::And),
        Level::And => lemma_operand_one(ts, pos, Level::Equality),
        Level::Equality => lemma_operand_one(ts, pos, Level::Comparison),
        Level::Comparison => lemma_operand_one(ts, pos, Level::Term),
        Level::Term => lemma_operand_one(ts, pos, Level::Factor),
        Level::Factor => {},
    }
}

/// An operand that is an atom, before an operator of the level or of a
/// looser one, or before nothing that goes on.
pub proof fn lemma_operand_atom(ts: Seq<Token>, pos: int, level: Level)
    requires
        atom_at(ts, pos),
        !continues(ts, pos + 1, level) || operator_at(ts, pos + 1, level),
    ensures
        operand(ts, pos, level) == Parsed::Done(atom(ts[pos]).unwrap(), 0),
{
    reveal_with_fuel(operand, 4);
    reveal_with_fuel(infix, 3);
    reveal_with_fuel(infix_rest, 3);
    reveal_with_fuel(ternary, 3);
    reveal_with_fuel(ternary_rest, 2);
    reveal_with_fuel(unary, 2);
    reveal_with_fuel(primary, 1);
    match level {
        Level::Or => lemma_operand_one(ts, pos, Level::And),
        Level::And => lemma_operand_one(ts, pos, Level::Equality),
        Level::Equality => lemma_operand_one(ts, pos, Level::Comparison),
        Level::Comparison => lemma_operand_one(ts, pos, Level::Term),
        Level::Term => lemma_operand_one(ts, pos, Level::Factor),
        Level::Factor => {},
    }
}

/// Two atoms with an operator between them, and nothing that goes on: at
/// the level of the operator and at every looser one, the expression is
/// the operator with the two atoms.
pub proof fn lemma_two(ts: Seq<Token>, pos: int, level: Level, found: Level)
    requires
        atom_at(ts, pos),
        operator_at(ts, pos + 1, found),
        atom_at(ts, pos + 2),
        !continues(ts, pos + 3, level),
        rank(found) <= rank(level),
    ensures
        infix(ts, pos, level) == Parsed::Done(
            join(found, atom(ts[pos]).unwrap(), ts[pos + 1], atom(ts[pos + 2]).unwrap()),
            2,
        ),
    decreases rank(level),
{
    reveal_with_fuel(operand, 4);
    reveal_with_fuel(infix, 3);
    reveal_with_fuel(infix_rest, 3);
    reveal_with_fuel(ternary, 3);
    reveal_with_fuel(ternary_rest, 2);
    reveal_with_fuel(unary, 2);
    reveal_with_fuel(primary, 1);
    let first = atom(ts[pos]).unwrap();
    let second = atom(ts[pos + 2]).unwrap();
    let joined = join(found, first, ts[pos + 1], second);
    if level == found {
        lemma_operand_atom(ts, pos, level);
        lemma_operand_atom(ts, pos + 2, level);
        assert(infix_rest(ts, pos, level, joined, 2) == Parsed::Done(joined, 2));
        assert(infix_rest(ts, pos, level, first, 0) == Parsed::Done(joined, 2));
    } else {
        match level {
            Level::Or => lemma_two(ts, pos, Level::And, found),
            Level::And => lemma_two(ts, pos, Level::Equality, found),
            Level::Equality => lemma_two(ts, pos, Level::Comparison, found),
            Level::Comparison => lemma_two(ts, pos, Level::Term, found),
            Level::Term => lemma_two(ts, pos, Level::Factor, found),
            Level::Factor => {},
        }
    }
}

/// The tree of three atoms with two operators between them: the operator
/// that binds tighter has its two atoms for operands, and the other one
/// has the third atom and that operator; of two operators of one level,
/// the first has its two atoms for operands.
pub open spec fn tree(
    first: Expr,
    one: Token,
    second: Expr,
    two: Token,
    third: Expr,
) -> Expr {
    let left = level_of(one.token_type).unwrap();
    let right = level_of(two.token_type).unwrap();
    if tighter(right, left) {
        join(left, first, one, join(right, second, two, third))
    } else {
        join(right, join(left, first, one, second), two, third)
    }
}

/// Three atoms with two operators of one level between them.
proof fn lemma_three_alike(ts: Seq<Token>, pos: int, level: Level)
    requires
        atom_at(ts, pos),
        operator_at(ts, pos + 1, level),
        atom_at(ts, pos + 2),
        operator_at(ts, pos + 3, level),
        atom_at(ts, pos + 4),
        !continues(ts, pos + 5, level),
    ensures
        infix(ts, pos, level) == Parsed::Done(
            tree(
                atom(ts[pos]).unwrap(),
                ts[pos + 1],
                atom(ts[pos + 2]).unwrap(),
                ts[pos + 3],
                atom(ts[pos + 4]).unwrap(),
            ),
            4,
        ),
{
    let first = atom(ts[pos]).unwrap();
    let second = atom(ts[pos + 2]).unwrap();
    let third = atom(ts[pos + 4]).unwrap();
    let whole = tree(first, ts[pos + 1], second, ts[pos + 3], third);
    let inner = join(level, first, ts[pos + 1], second);
    lemma_operand_atom(ts, pos, level);
    lemma_operand_atom(ts, pos + 2, level);
    lemma_operand_atom(ts, pos + 4, level);
    lemma_level_of(level, ts[pos + 1].token_type);
    lemma_level_of(level, ts[pos + 3].token_type);
    assert(infix_rest(ts, pos, level, whole, 4) == Parsed::Done(whole, 4));
    assert(infix_rest(ts, pos, level, inner, 2) == Parsed::Done(whole, 4));
    assert(infix_rest(ts, pos, level, first, 0) == Parsed::Done(whole, 4));
}

/// Three atoms, the second operator between them tighter than the first.
proof fn lemma_three_right(ts: Seq<Token>, pos: int, level: Level, right: Level)
    requires
        atom_at(ts, pos),
        operator_at(ts, pos + 1, level),
        atom_at(ts, pos + 2),
        operator_at(ts, pos + 3, right),
        atom_at(ts, pos + 4),
        !continues(ts, pos + 5, level),
        tighter(right, level),
    ensures
        infix(ts, pos, level) == Parsed::Done(
            tree(
                atom(ts[pos]).unwrap(),
                ts[pos + 1],
                atom(ts[pos + 2]).unwrap(),
                ts[pos + 3],
                atom(ts[pos + 4]).unwrap(),
            ),
            4,
        ),
{
    let first = atom(ts[pos]).unwrap();
    let second = atom(ts[pos + 2]).unwrap();
    let third = atom(ts[pos + 4]).unwrap();
    let whole = tree(first, ts[pos + 1], second, ts[pos + 3], third);
    lemma_operand_atom(ts, pos, level);
    lemma_operand_two(ts, pos + 2, level, right);
    lemma_level_of(level, ts[pos + 1].token_type);
    assert(infix_rest(ts, pos, level, whole, 4) == Parsed::Done(whole, 4));
    assert(infix_rest(ts, pos, level, first, 0) == Parsed::Done(whole, 4));
}

/// Three atoms, the first operator between them tighter than the second.
proof fn lemma_three_left(ts: Seq<Token>, pos: int, level: Level, left: Level)
    requires
        atom_at(ts, pos),
        operator_at(ts, pos + 1, left),
        atom_at(ts, pos + 2),
        operator_at(ts, pos + 3, level),
        atom_at(ts, pos + 4),
        !continues(ts, pos + 5, level),
        tighter(left, level),
    ensures
        infix(ts, pos, level) == Parsed::Done(
            tree(
                atom(ts[pos]).unwrap(),
                ts[pos + 1],
                atom(ts[pos + 2]).unwrap(),
                ts[pos + 3],
                atom(ts[pos + 4]).unwrap(),
            ),
            4,
        ),
{
    let first = atom(ts[pos]).unwrap();
    let second = atom(ts[pos + 2]).unwrap();
    let third = atom(ts[pos + 4]).unwrap();
    let whole = tree(first, ts[pos + 1], second, ts[pos + 3], third);
    let inner = join(left, first, ts[pos + 1], second);
    lemma_operand_two(ts, pos, level, left);
    lemma_operand_atom(ts, pos + 4, level);
    lemma_level_of(level, ts[pos + 3].token_type);
    assert(infix_rest(ts, pos, level, whole, 4) == Parsed::Done(whole, 4));
    assert(infix_rest(ts, pos, level, inner, 2) == Parsed::Done(whole, 4));
}

/// Three atoms with two operators between them, and nothing that goes on:
/// at the looser of the levels of the two operators and at every looser
/// one, the expression is the tree in which the operator that binds
/// tighter comes first, and the left one of two that bind alike.
pub proof fn lemma_three(ts: Seq<Token>, pos: int, level: Level, left: Level, right: Level)
    requires
        atom_at(ts, pos),
        operator_at(ts, pos + 1, left),
        atom_at(ts, pos + 2),
        operator_at(ts, pos + 3, right),
        atom_at(ts, pos + 4),
        !continues(ts, pos + 5, level),
        rank(left) <= rank(level),
        rank(right) <= rank(level),
    ensures
        infix(ts, pos, level) == Parsed::Done(
            tree(
                atom(ts[pos]).unwrap(),
                ts[pos + 1],
                atom(ts[pos + 2]).unwrap(),
                ts[pos + 3],
                atom(ts[pos + 4]).unwrap(),
            ),
            4,
        ),
    decreases rank(level), 1nat,
{
    if level == left && level == right {
        lemma_three_alike(ts, pos, level);
    } else if level == left {
        lemma_three_right(ts, pos, level, right);
    } else if level == right {
        lemma_three_left(ts, pos, level, left);
    } else {
        lemma_three_looser(ts, pos, level, left, right);
    }
}

/// The same at a level looser than both operators.
proof fn lemma_three_looser(ts: Seq<Token>, pos: int, level: Level, left: Level, right: Level)
    requires
        atom_at(ts, pos),
        operator_at(ts, pos + 1, left),
        atom_at(ts, pos + 2),
        operator_at(ts, pos + 3, right),
        atom_at(ts, pos + 4),
        !continues(ts, pos + 5, level),
        tighter(left, level),
        tighter(right, level),
    ensures
        infix(ts, pos, level) == Parsed::Done(
            tree(
                atom(ts[pos]).unwrap(),
                ts[pos + 1],
                atom(ts[pos + 2]).unwrap(),
                ts[pos + 3],
                atom(ts[pos + 4]).unwrap(),
            ),
            4,
        ),
    decreases rank(level), 0nat,
{
    reveal_with_fuel(operand, 4);
    reveal_with_fuel(infix, 3);
    reveal_with_fuel(ternary, 3);
    reveal_with_fuel(ternary_rest, 2);
    match level {
        Level::Or => lemma_three(ts, pos, Level::And, left, right),
        Level::And => lemma_three(ts, pos, Level::Equality, left, right),
        Level::Equality => lemma_three(ts, pos, Level::Comparison, left, right),
        Level::Comparison => lemma_three(ts, pos, Level::Term, left, right),
        Level::Term => lemma_three(ts, pos, Level::Factor, left, right),
        Level::Factor => {},
    }
}

/// An operand that is two atoms with an operator between them, which
/// binds tighter than the level.
pub proof fn lemma_operand_two(ts: Seq<Token>, pos: int, level: Level, found: Level)
    requires
        atom_at(ts, pos),
        operator_at(ts, pos + 1, found),
        atom_at(ts, pos + 2),
        !continues(ts, pos + 3, level) || operator_at(ts, pos + 3, level),
        tighter(found, level),
    ensures
        operand(ts, pos, level) == Parsed::Done(
            join(found, atom(ts[pos]).unwrap(), ts[pos + 1], atom(ts[pos + 2]).unwrap()),
            2,
        ),
{
    reveal_with_fuel(operand, 4);
    reveal_with_fuel(infix, 3);
    reveal_with_fuel(infix_rest, 3);
    reveal_with_fuel(ternary, 3);
    reveal_with_fuel(ternary_rest, 2);
    reveal_with_fuel(unary, 2);
    reveal_with_fuel(primary, 1);
    match level {
        Level::Or => lemma_two(ts, pos, Level::And, found),
        Level::And => lemma_two(ts, pos, Level::Equality, found),
        Level::Equality => lemma_two(ts, pos, Level::Comparison, found),
        Level::Comparison => lemma_two(ts, pos, Level::Term, found),
        Level::Term => lemma_two(ts, pos, Level::Factor, found),
        Level::Factor => {},
    }
}

/// Precedence and associativity. Of three atoms with two operators
/// between them, the parser makes the tree in which the operator that
/// binds tighter has its two atoms for operands, whichever side it stands
/// on; and where the two operators bind alike, the left one has: operators
/// of one level associate to the left.
pub proof fn lemma_precedence(ts: Seq<Token>, pos: int)
    requires
        atom_at(ts, pos),
        0 <= pos + 1 < ts.len() && level_of(ts[pos + 1].token_type) is Some,
        atom_at(ts, pos + 2),
        0 <= pos + 3 < ts.len() && level_of(ts[pos + 3].token_type) is Some,
        atom_at(ts, pos + 4),
        !continues(ts, pos + 5, Level::Or),
        !at(ts, pos + 5, TokenType::Equal),
    ensures
        expression(ts, pos) == Parsed::Done(
            tree(
                atom(ts[pos]).unwrap(),
                ts[pos + 1],
                atom(ts[pos + 2]).unwrap(),
                ts[pos + 3],
                atom(ts[pos + 4]).unwrap(),
            ),
            4,
        ),
{
    reveal_with_fuel(operand, 4);
    reveal_with_fuel(infix, 3);
    reveal_with_fuel(infix_rest, 3);
    reveal_with_fuel(ternary, 3);
    reveal_with_fuel(ternary_rest, 2);
    reveal_with_fuel(unary, 2);
    reveal_with_fuel(primary, 1);
    let left = level_of(ts[pos + 1].token_type).unwrap();
    let right = level_of(ts[pos + 3].token_type).unwrap();
    lemma_three(ts, pos, Level::Or, left, right);
}

/// The tree of a first operand and further operands, each behind its
/// operator, nested to the left in the order of the source: the last
/// operator is at the root, with all that stands before it for its left
/// operand.
pub open spec fn folded(level: Level, first: Expr, operators: Seq<Token>, operands: Seq<Expr>) -> Expr
    decreases operators.len(),
{
    if operators.len() == 0 || operands.len() != operators.len() {
        first
    } else {
        join(
            level,
            folded(level, first, operators.drop_last(), operands.drop_last()),
            operators.last(),
            operands.last(),
        )
    }
}

/// Where the tokens from `pos` on spell the operators of the level, each
/// with the operand behind it: the place behind the last operand.
pub open spec fn spelled(
    ts: Seq<Token>,
    pos: int,
    level: Level,
    operators: Seq<Token>,
    operands: Seq<Expr>,
) -> Option<int>
    decreases operators.len(),
{
    if operands.len() != operators.len() {
        None
    } else if operators.len() == 0 {
        Some(pos)
    } else if 0 <= pos < ts.len() && !is_end(ts, pos) && is_operator(level, ts[pos].token_type)
        && ts[pos] == operators[0] {
        match operand(ts, pos + 1, level) {
            Parsed::Done(found, more) => if found == operands[0] {
                spelled(ts, pos + 2 + more, level, operators.drop_first(), operands.drop_first())
            } else {
                None
            },
            Parsed::Failed(_, _) => None,
        }
    } else {
        None
    }
}

/// Whether an operator of the level stands at `pos`, short of the end.
pub open spec fn goes_on(ts: Seq<Token>, pos: int, level: Level) -> bool {
    0 <= pos < ts.len() && !is_end(ts, pos) && is_operator(level, ts[pos].token_type)
}

/// To fold an operand into the first one and the rest into that is to fold
/// them all into the first one.
pub proof fn lemma_folded_first(
    level: Level,
    first: Expr,
    operators: Seq<Token>,
    operands: Seq<Expr>,
)
    requires
        operators.len() == operands.len(),
        operators.len() > 0,
    ensures
        folded(
            level,
            join(level, first, operators[0], operands[0]),
            operators.drop_first(),
            operands.drop_first(),
        ) == folded(level, first, operators, operands),
    decreases operators.len(),
{
    if operators.len() == 1 {
        assert(operators.drop_last().len() == 0);
        assert(folded(level, first, operators.drop_last(), operands.drop_last()) == first);
    } else {
        lemma_folded_first(level, first, operators.drop_last(), operands.drop_last());
        assert(operators.drop_first().drop_last() =~= operators.drop_last().drop_first());
        assert(operands.drop_first().drop_last() =~= operands.drop_last().drop_first());
    }
}

/// What is spelled ends behind where it begins.
pub proof fn lemma_spelled(
    ts: Seq<Token>,
    pos: int,
    level: Level,
    operators: Seq<Token>,
    operands: Seq<Expr>,
)
    ensures
        spelled(ts, pos, level, operators, operands) is Some ==> spelled(
            ts,
            pos,
            level,
            operators,
            operands,
        ).unwrap() >= pos,
    decreases operators.len(),
{
    if operands.len() == operators.len() && operators.len() > 0 && goes_on(ts, pos, level) {
        match operand(ts, pos + 1, level) {
            Parsed::Done(found, more) => {
                lemma_spelled(
                    ts,
                    pos + 2 + more,
                    level,
                    operators.drop_first(),
                    operands.drop_first(),
                );
            },
            Parsed::Failed(_, _) => {},
        }
    }
}

/// Operators of one level nest to the left, however many there are:
/// behind operands that make `left`, the operators that follow, each with
/// its operand, are folded into it one by one in the order of the source.
pub proof fn lemma_folds_left(
    ts: Seq<Token>,
    pos: int,
    level: Level,
    left: Expr,
    used: nat,
    operators: Seq<Token>,
    operands: Seq<Expr>,
)
    requires
        spelled(ts, pos + 1 + used, level, operators, operands) is Some,
        !goes_on(ts, spelled(ts, pos + 1 + used, level, operators, operands).unwrap(), level),
    ensures
        spelled(ts, pos + 1 + used, level, operators, operands).unwrap() > pos,
        infix_rest(ts, pos, level, left, used) == Parsed::Done(
            folded(level, left, operators, operands),
            (spelled(ts, pos + 1 + used, level, operators, operands).unwrap() - pos - 1) as nat,
        ),
    decreases operators.len(),
{
    let here = pos + 1 + used;
    lemma_spelled(ts, here, level, operators, operands);
    if operators.len() > 0 {
        match operand(ts, here + 1, level) {
            Parsed::Done(found, more) => {
                lemma_folds_left(
                    ts,
                    pos,
                    level,
                    join(level, left, ts[here], found),
                    used + 2 + more,
                    operators.drop_first(),
                    operands.drop_first(),
                );
                lemma_folded_first(level, left, operators, operands);
            },
            Parsed::Failed(_, _) => {},
        }
    }
}

/// Associativity, in general. Where the tokens spell a first operand and
/// then any number of operators of one level, each with its operand, and
/// no operator of the level follows, the expression of that level is the
/// tree that nests them to the left: of `1 - 2 - 3` it is the difference
/// of `1 - 2` and `3`.
pub proof fn lemma_left_associative(
    ts: Seq<Token>,
    pos: int,
    level: Level,
    first: Expr,
    more: nat,
    operators: Seq<Token>,
    operands: Seq<Expr>,
)
    requires
        operand(ts, pos, level) == Parsed::Done(first, more),
        spelled(ts, pos + 1 + more, level, operators, operands) is Some,
        !goes_on(ts, spelled(ts, pos + 1 + more, level, operators, operands).unwrap(), level),
    ensures
        infix(ts, pos, level) == Parsed::Done(
            folded(level, first, operators, operands),
            (spelled(ts, pos + 1 + more, level, operators, operands).unwrap() - pos - 1) as nat,
        ),
{
    lemma_folds_left(ts, pos, level, first, more, operators, operands);
}

} // verus!
