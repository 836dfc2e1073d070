//! The parser only goes forward: every step of the grammar ends at or behind
//! the index where it began, inside the tokens, and a step that recognises
//! something has read at least one token.
//!
//! The functions of [`crate::ast::grammar`] ask for this before they go on
//! after a step, which makes their recursion end. The lemmas here show that
//! the answer is always yes.
use crate::ast::grammar::{
    assignment, binary, binary_rest, block_rest, clause, condition, else_rest, expect, expression,
    for_rest, if_rest, operand, operator_at, primary, program, program_rest, return_rest,
    statement, terminated, unary, while_rest, Level, Parsed,
};
use crate::ast::node::NodeView;
use crate::lexer::TokenView;
use vstd::prelude::*;

verus! {

/// Whether a step from `pos` stays inside the `len` tokens and does not go
/// back.
pub open spec fn stays<T>(step: Parsed<T>, pos: nat, len: nat) -> bool {
    pos <= step.pos <= len
}

/// Whether a step from `pos` stays inside the `len` tokens, does not go
/// back, and has read a token if it recognised something.
pub open spec fn moves<T>(step: Parsed<T>, pos: nat, len: nat) -> bool {
    stays(step, pos, len) && (step.result is Ok ==> pos < step.pos)
}

/// A primary expression moves.
pub proof fn lemma_primary_moves(ts: Seq<TokenView>, pos: nat, names: Seq<Seq<char>>)
    requires
        pos <= ts.len(),
    ensures
        moves(primary(ts, pos, names), pos, ts.len()),
    decreases ts.len() - pos, 0nat,
{
    if pos < ts.len() && ts[pos as int] is LeftParen {
        lemma_expression_moves(ts, pos + 1, names);
    }
}

/// A unary expression moves.
pub proof fn lemma_unary_moves(ts: Seq<TokenView>, pos: nat, names: Seq<Seq<char>>)
    requires
        pos <= ts.len(),
    ensures
        moves(unary(ts, pos, names), pos, ts.len()),
    decreases ts.len() - pos, 1nat,
{
    if pos < ts.len() && (ts[pos as int] == TokenView::Plus || ts[pos as int]
        == TokenView::Minus) {
        lemma_primary_moves(ts, pos + 1, names);
    } else {
        lemma_primary_moves(ts, pos, names);
    }
}

/// An operand of a level moves.
pub proof fn lemma_operand_moves(
    ts: Seq<TokenView>,
    pos: nat,
    names: Seq<Seq<char>>,
    level: Level,
)
    requires
        pos <= ts.len(),
    ensures
        moves(operand(ts, pos, names, level), pos, ts.len()),
    decreases ts.len() - pos, 2 + 2 * level.rank(),
{
    match level {
        Level::Multiplicative => lemma_unary_moves(ts, pos, names),
        Level::Additive => lemma_binary_moves(ts, pos, names, Level::Multiplicative),
        Level::Relational => lemma_binary_moves(ts, pos, names, Level::Additive),
        Level::Equality => lemma_binary_moves(ts, pos, names, Level::Relational),
    }
}

/// A chain of operators of a level moves.
pub proof fn lemma_binary_moves(
    ts: Seq<TokenView>,
    pos: nat,
    names: Seq<Seq<char>>,
    level: Level,
)
    requires
        pos <= ts.len(),
    ensures
        moves(binary(ts, pos, names, level), pos, ts.len()),
    decreases ts.len() - pos, 3 + 2 * level.rank(),
{
    lemma_operand_moves(ts, pos, names, level);
    let first = operand(ts, pos, names, level);
    if first.result is Ok {
        lemma_binary_rest_stays(ts, first.pos, first.names, level, first.result->Ok_0);
    }
}

/// The rest of a chain of operators of a level stays.
pub proof fn lemma_binary_rest_stays(
    ts: Seq<TokenView>,
    pos: nat,
    names: Seq<Seq<char>>,
    level: Level,
    left: NodeView,
)
    requires
        pos <= ts.len(),
    ensures
        stays(binary_rest(ts, pos, names, level, left), pos, ts.len()),
    decreases ts.len() - pos, 0nat,
{
    if pos < ts.len() {
        match operator_at(level, ts[pos as int]) {
            None => {},
            Some((op, swap)) => {
                lemma_operand_moves(ts, pos + 1, names, level);
                let right = operand(ts, pos + 1, names, level);
                if right.result is Ok {
                    lemma_binary_rest_stays(
                        ts,
                        right.pos,
                        right.names,
                        level,
                        crate::ast::grammar::apply(op, swap, left, right.result->Ok_0),
                    );
                }
            },
        }
    }
}

/// An assignment moves.
pub proof fn lemma_assignment_moves(ts: Seq<TokenView>, pos: nat, names: Seq<Seq<char>>)
    requires
        pos <= ts.len(),
    ensures
        moves(assignment(ts, pos, names), pos, ts.len()),
    decreases ts.len() - pos, 10nat,
{
    lemma_binary_moves(ts, pos, names, Level::Equality);
    let target = binary(ts, pos, names, Level::Equality);
    if target.result is Ok && target.pos < ts.len() {
        lemma_assignment_moves(ts, target.pos + 1, target.names);
    }
}

/// An expression moves.
pub proof fn lemma_expression_moves(ts: Seq<TokenView>, pos: nat, names: Seq<Seq<char>>)
    requires
        pos <= ts.len(),
    ensures
        moves(expression(ts, pos, names), pos, ts.len()),
    decreases ts.len() - pos, 11nat,
{
    lemma_assignment_moves(ts, pos, names);
}

/// A condition in parentheses moves.
pub proof fn lemma_condition_moves(ts: Seq<TokenView>, pos: nat, names: Seq<Seq<char>>)
    requires
        pos <= ts.len(),
    ensures
        moves(condition(ts, pos, names), pos, ts.len()),
    decreases ts.len() - pos, 12nat,
{
    let open = expect(ts, pos, names, TokenView::LeftParen);
    if open.result is Ok {
        lemma_expression_moves(ts, open.pos, open.names);
    }
}

/// A clause of `for` with its delimiter moves.
pub proof fn lemma_clause_moves(
    ts: Seq<TokenView>,
    pos: nat,
    names: Seq<Seq<char>>,
    end: TokenView,
)
    requires
        pos <= ts.len(),
    ensures
        moves(clause(ts, pos, names, end), pos, ts.len()),
    decreases ts.len() - pos, 12nat,
{
    lemma_expression_moves(ts, pos, names);
}

/// An expression with its semicolon moves.
pub proof fn lemma_terminated_moves(ts: Seq<TokenView>, pos: nat, names: Seq<Seq<char>>)
    requires
        pos <= ts.len(),
    ensures
        moves(terminated(ts, pos, names), pos, ts.len()),
    decreases ts.len() - pos, 12nat,
{
    lemma_expression_moves(ts, pos, names);
}

/// A statement moves.
pub proof fn lemma_statement_moves(ts: Seq<TokenView>, pos: nat, names: Seq<Seq<char>>)
    requires
        pos <= ts.len(),
    ensures
        moves(statement(ts, pos, names), pos, ts.len()),
    decreases ts.len() - pos, 13nat,
{
    if pos < ts.len() {
        match ts[pos as int] {
            TokenView::LeftBrace => lemma_block_rest_moves(ts, pos + 1, names, Seq::empty()),
            TokenView::Return => lemma_return_rest_moves(ts, pos + 1, names),
            TokenView::If => lemma_if_rest_moves(ts, pos + 1, names),
            TokenView::While => lemma_while_rest_moves(ts, pos + 1, names),
            TokenView::For => lemma_for_rest_moves(ts, pos + 1, names),
            _ => lemma_terminated_moves(ts, pos, names),
        }
    }
}

/// What follows `return` moves.
pub proof fn lemma_return_rest_moves(ts: Seq<TokenView>, pos: nat, names: Seq<Seq<char>>)
    requires
        pos <= ts.len(),
    ensures
        moves(return_rest(ts, pos, names), pos, ts.len()),
    decreases ts.len() - pos, 14nat,
{
    lemma_terminated_moves(ts, pos, names);
}

/// What follows `if` moves.
pub proof fn lemma_if_rest_moves(ts: Seq<TokenView>, pos: nat, names: Seq<Seq<char>>)
    requires
        pos <= ts.len(),
    ensures
        moves(if_rest(ts, pos, names), pos, ts.len()),
    decreases ts.len() - pos, 14nat,
{
    lemma_condition_moves(ts, pos, names);
    let cond = condition(ts, pos, names);
    if cond.result is Ok {
        lemma_statement_moves(ts, cond.pos, cond.names);
        let then = statement(ts, cond.pos, cond.names);
        if then.result is Ok {
            lemma_else_rest_stays(
                ts,
                then.pos,
                then.names,
                cond.result->Ok_0,
                then.result->Ok_0,
            );
        }
    }
}

/// What follows the first statement of an `if` stays.
pub proof fn lemma_else_rest_stays(
    ts: Seq<TokenView>,
    pos: nat,
    names: Seq<Seq<char>>,
    cond: NodeView,
    then: NodeView,
)
    requires
        pos <= ts.len(),
    ensures
        stays(else_rest(ts, pos, names, cond, then), pos, ts.len()),
    decreases ts.len() - pos, 14nat,
{
    if pos < ts.len() && ts[pos as int] == TokenView::Else {
        lemma_statement_moves(ts, pos + 1, names);
    }
}

/// What follows `while` moves.
pub proof fn lemma_while_rest_moves(ts: Seq<TokenView>, pos: nat, names: Seq<Seq<char>>)
    requires
        pos <= ts.len(),
    ensures
        moves(while_rest(ts, pos, names), pos, ts.len()),
    decreases ts.len() - pos, 14nat,
{
    lemma_condition_moves(ts, pos, names);
    let cond = condition(ts, pos, names);
    if cond.result is Ok {
        lemma_statement_moves(ts, cond.pos, cond.names);
    }
}

/// What follows `for` moves.
pub proof fn lemma_for_rest_moves(ts: Seq<TokenView>, pos: nat, names: Seq<Seq<char>>)
    requires
        pos <= ts.len(),
    ensures
        moves(for_rest(ts, pos, names), pos, ts.len()),
    decreases ts.len() - pos, 14nat,
{
    let open = expect(ts, pos, names, TokenView::LeftParen);
    if open.result is Ok {
        lemma_clause_moves(ts, open.pos, open.names, TokenView::Semicolon);
        let init = clause(ts, open.pos, open.names, TokenView::Semicolon);
        if init.result is Ok {
            lemma_clause_moves(ts, init.pos, init.names, TokenView::Semicolon);
            let cond = clause(ts, init.pos, init.names, TokenView::Semicolon);
            if cond.result is Ok {
                lemma_clause_moves(ts, cond.pos, cond.names, TokenView::RightParen);
                let step = clause(ts, cond.pos, cond.names, TokenView::RightParen);
                if step.result is Ok {
                    lemma_statement_moves(ts, step.pos, step.names);
                }
            }
        }
    }
}

/// The rest of a block moves: it ends behind the closing brace.
pub proof fn lemma_block_rest_moves(
    ts: Seq<TokenView>,
    pos: nat,
    names: Seq<Seq<char>>,
    done: Seq<NodeView>,
)
    requires
        pos <= ts.len(),
    ensures
        moves(block_rest(ts, pos, names, done), pos, ts.len()),
    decreases ts.len() - pos, 14nat,
{
    if !(pos < ts.len() && ts[pos as int] == TokenView::RightBrace) {
        lemma_statement_moves(ts, pos, names);
        let next = statement(ts, pos, names);
        if next.result is Ok {
            lemma_block_rest_moves(ts, next.pos, next.names, done.push(next.result->Ok_0));
        }
    }
}

/// The rest of a program moves: it ends behind the end-of-input marker.
pub proof fn lemma_program_rest_moves(
    ts: Seq<TokenView>,
    pos: nat,
    names: Seq<Seq<char>>,
    done: Seq<NodeView>,
)
    requires
        pos <= ts.len(),
    ensures
        moves(program_rest(ts, pos, names, done), pos, ts.len()),
    decreases ts.len() - pos, 14nat,
{
    if !(pos < ts.len() && ts[pos as int] == TokenView::EOF) {
        lemma_statement_moves(ts, pos, names);
        let next = statement(ts, pos, names);
        if next.result is Ok {
            lemma_program_rest_moves(ts, next.pos, next.names, done.push(next.result->Ok_0));
        }
    }
}

/// A program moves: where it is one, the parser has read its end-of-input
/// marker.
pub proof fn lemma_program_moves(ts: Seq<TokenView>, pos: nat, names: Seq<Seq<char>>)
    requires
        pos <= ts.len(),
    ensures
        moves(program(ts, pos, names), pos, ts.len()),
        program(ts, pos, names).result is Ok ==> ts[program(ts, pos, names).pos - 1]
            == TokenView::EOF,
{
    lemma_program_rest_moves(ts, pos, names, Seq::empty());
    lemma_program_ends_at_marker(ts, pos, names, Seq::empty());
}

/// Where the rest of a program is one, the parser has read its
/// end-of-input marker last.
pub proof fn lemma_program_ends_at_marker(
    ts: Seq<TokenView>,
    pos: nat,
    names: Seq<Seq<char>>,
    done: Seq<NodeView>,
)
    requires
        pos <= ts.len(),
    ensures
        program_rest(ts, pos, names, done).result is Ok ==> {
            &&& 0 < program_rest(ts, pos, names, done).pos <= ts.len()
            &&& ts[program_rest(ts, pos, names, done).pos - 1] == TokenView::EOF
        },
    decreases ts.len() - pos,
{
    if !(pos < ts.len() && ts[pos as int] == TokenView::EOF) {
        lemma_statement_moves(ts, pos, names);
        let next = statement(ts, pos, names);
        if next.result is Ok {
            lemma_program_ends_at_marker(ts, next.pos, next.names, done.push(next.result->Ok_0));
        }
    }
}

} // verus!
