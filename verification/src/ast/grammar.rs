//! What the parser computes, as a function of the token sequence.
//!
//! ```text
//! program    = statement*
//! statement  = "{" statement* "}"
//!            | "return" expression ";"
//!            | "if" "(" expression ")" statement ("else" statement)?
//!            | "while" "(" expression ")" statement
//!            | "for" "(" expression? ";" expression? ";" expression? ")" statement
//!            | expression ";"
//! expression = assignment
//! assignment = equality ("=" assignment)?
//! equality   = relational (("==" | "!=") relational)*
//! relational = additive (("<" | "<=" | ">" | ">=") additive)*
//! additive   = multiplicative (("+" | "-") multiplicative)*
//! multiplicative = unary (("*" | "/") unary)*
//! unary      = ("+" | "-")? primary
//! primary    = number | identifier | "(" expression ")"
//! ```
//!
//! Each function below takes the whole token sequence, the index of the next
//! token and the names of the variables met so far, and gives a [`Parsed`]:
//! the tree or the error, together with the index and the names afterwards.
//!
//! Before a function goes on behind a step, it asks whether the step has
//! advanced. Every step that recognises something has, as
//! [`crate::ast::progress`] shows; the question makes the recursion end.
use crate::ast::node::{BinOp, NodeView};
use crate::ast::symbols::{resolve, variable};
use crate::lexer::TokenView;
use vstd::prelude::*;

verus! {

/// Why a token sequence is no program.
pub enum ParserErrorView {
    UnexpectedToken { expected: Seq<TokenView>, actual: Seq<TokenView> },
    UnexpectedEOF,
    NotEnoughTokens,
}

/// The outcome of one parsing step.
pub struct Parsed<T> {
    /// What was recognised, or why nothing was.
    pub result: Result<T, ParserErrorView>,
    /// The index of the next unread token.
    pub pos: nat,
    /// The names of the variables met so far, in order of first appearance.
    pub names: Seq<Seq<char>>,
}

impl<T> Parsed<T> {
    /// A step that recognised `value`.
    pub open spec fn ok(value: T, pos: nat, names: Seq<Seq<char>>) -> Parsed<T> {
        Parsed { result: Ok(value), pos, names }
    }

    /// A step that failed with `error`.
    pub open spec fn err(error: ParserErrorView, pos: nat, names: Seq<Seq<char>>) -> Parsed<T> {
        Parsed { result: Err(error), pos, names }
    }

    /// Whether the step recognised something and read at least one token from
    /// `pos` on, without leaving the `len` tokens.
    pub open spec fn advanced(self, pos: nat, len: nat) -> bool {
        self.result is Ok && pos < self.pos <= len
    }
}

/// The precedence levels of the operators with two operands, loosest last.
#[derive(Debug, Clone, Copy, PartialEq, Eq, Structural)]
pub enum Level {
    Multiplicative,
    Additive,
    Relational,
    Equality,
}

impl Level {
    /// The place of the level in the order of precedence: zero binds
    /// tightest.
    pub open spec fn rank(self) -> nat {
        match self {
            Level::Multiplicative => 0,
            Level::Additive => 1,
            Level::Relational => 2,
            Level::Equality => 3,
        }
    }
}

/// The operator that `token` stands for at `level`, and whether its operands
/// change places: `a > b` is read as `b < a`, `a >= b` as `b <= a`.
pub open spec fn operator_at(level: Level, token: TokenView) -> Option<(BinOp, bool)> {
    match (level, token) {
        (Level::Multiplicative, TokenView::Multiply) => Some((BinOp::Mul, false)),
        (Level::Multiplicative, TokenView::Divide) => Some((BinOp::Div, false)),
        (Level::Additive, TokenView::Plus) => Some((BinOp::Add, false)),
        (Level::Additive, TokenView::Minus) => Some((BinOp::Sub, false)),
        (Level::Relational, TokenView::LessThan) => Some((BinOp::Lt, false)),
        (Level::Relational, TokenView::LessThanOrEqual) => Some((BinOp::Le, false)),
        (Level::Relational, TokenView::GreaterThan) => Some((BinOp::Lt, true)),
        (Level::Relational, TokenView::GreaterThanOrEqual) => Some((BinOp::Le, true)),
        (Level::Equality, TokenView::Equal) => Some((BinOp::Eq, false)),
        (Level::Equality, TokenView::NotEqual) => Some((BinOp::Ne, false)),
        _ => None,
    }
}

/// The tree of `op` applied to the operand on its left and the one on its
/// right, in the order that `swap` asks for.
pub open spec fn apply(op: BinOp, swap: bool, left: NodeView, right: NodeView) -> NodeView {
    if swap {
        NodeView::binary(op, right, left)
    } else {
        NodeView::binary(op, left, right)
    }
}

/// The tokens with which a primary expression may start, as an error lists
/// them.
pub open spec fn primary_starts() -> Seq<TokenView> {
    seq![TokenView::Num(0), TokenView::Identifier("a"@), TokenView::LeftParen]
}

/// Reads the token `token`: the step fails, and reads nothing, where the next
/// token is another one or none is left.
pub open spec fn expect(ts: Seq<TokenView>, pos: nat, names: Seq<Seq<char>>, token: TokenView)
    -> Parsed<()> {
    if pos >= ts.len() {
        Parsed::err(ParserErrorView::NotEnoughTokens, pos, names)
    } else if ts[pos as int] == token {
        Parsed::ok((), pos + 1, names)
    } else {
        Parsed::err(
            ParserErrorView::UnexpectedToken { expected: seq![token], actual: seq![ts[pos as int]] },
            pos,
            names,
        )
    }
}

/// Whether the next token is `token`.
pub open spec fn next_is(ts: Seq<TokenView>, pos: nat, token: TokenView) -> bool {
    pos < ts.len() && ts[pos as int] == token
}

/// `primary = number | identifier | "(" expression ")"`
pub open spec fn primary(ts: Seq<TokenView>, pos: nat, names: Seq<Seq<char>>) -> Parsed<NodeView>
    decreases ts.len() - pos, 0nat,
{
    if pos >= ts.len() {
        Parsed::err(ParserErrorView::NotEnoughTokens, pos, names)
    } else {
        match ts[pos as int] {
            TokenView::Num(n) => Parsed::ok(NodeView::Num(n), pos + 1, names),
            TokenView::Identifier(name) => Parsed::ok(
                variable(names, name),
                pos + 1,
                resolve(names, name),
            ),
            TokenView::LeftParen => {
                let inner = expression(ts, pos + 1, names);
                match inner.result {
                    Err(_) => inner,
                    Ok(node) => {
                        let close = expect(ts, inner.pos, inner.names, TokenView::RightParen);
                        match close.result {
                            Err(e) => Parsed::err(e, close.pos, close.names),
                            Ok(_) => Parsed::ok(node, close.pos, close.names),
                        }
                    },
                }
            },
            other => Parsed::err(
                ParserErrorView::UnexpectedToken {
                    expected: primary_starts(),
                    actual: seq![other],
                },
                pos,
                names,
            ),
        }
    }
}

/// `unary = ("+" | "-")? primary`, where `-x` stands for `0 - x`.
pub open spec fn unary(ts: Seq<TokenView>, pos: nat, names: Seq<Seq<char>>) -> Parsed<NodeView>
    decreases ts.len() - pos, 1nat,
{
    if next_is(ts, pos, TokenView::Plus) {
        primary(ts, pos + 1, names)
    } else if next_is(ts, pos, TokenView::Minus) {
        let operand = primary(ts, pos + 1, names);
        match operand.result {
            Err(_) => operand,
            Ok(node) => Parsed::ok(
                NodeView::binary(BinOp::Sub, NodeView::Num(0), node),
                operand.pos,
                operand.names,
            ),
        }
    } else {
        primary(ts, pos, names)
    }
}

/// An operand of the operators of `level`: an expression of the next tighter
/// level.
pub open spec fn operand(ts: Seq<TokenView>, pos: nat, names: Seq<Seq<char>>, level: Level)
    -> Parsed<NodeView>
    decreases ts.len() - pos, 2 + 2 * level.rank(),
{
    match level {
        Level::Multiplicative => unary(ts, pos, names),
        Level::Additive => binary(ts, pos, names, Level::Multiplicative),
        Level::Relational => binary(ts, pos, names, Level::Additive),
        Level::Equality => binary(ts, pos, names, Level::Relational),
    }
}

/// An operand of `level` followed by any number of operators of that level
/// with their right operands, grouped from the left.
pub open spec fn binary(ts: Seq<TokenView>, pos: nat, names: Seq<Seq<char>>, level: Level)
    -> Parsed<NodeView>
    decreases ts.len() - pos, 3 + 2 * level.rank(),
{
    let first = operand(ts, pos, names, level);
    match first.result {
        Err(_) => first,
        Ok(node) => if first.advanced(pos, ts.len()) {
            binary_rest(ts, first.pos, first.names, level, node)
        } else {
            first
        },
    }
}

/// The operators of `level` and their right operands that follow the tree
/// `left`. The chain ends at the end of the tokens, or before a token that
/// is no operator of this level, which stays unread.
pub open spec fn binary_rest(
    ts: Seq<TokenView>,
    pos: nat,
    names: Seq<Seq<char>>,
    level: Level,
    left: NodeView,
) -> Parsed<NodeView>
    decreases ts.len() - pos, 0nat,
{
    if pos >= ts.len() {
        Parsed::ok(left, pos, names)
    } else {
        match operator_at(level, ts[pos as int]) {
            None => Parsed::ok(left, pos, names),
            Some((op, swap)) => {
                let right = operand(ts, pos + 1, names, level);
                match right.result {
                    Err(_) => right,
                    Ok(node) => if right.advanced(pos, ts.len()) {
                        binary_rest(ts, right.pos, right.names, level, apply(op, swap, left, node))
                    } else {
                        right
                    },
                }
            },
        }
    }
}

/// `assignment = equality ("=" assignment)?`
pub open spec fn assignment(ts: Seq<TokenView>, pos: nat, names: Seq<Seq<char>>) -> Parsed<
    NodeView,
>
    decreases ts.len() - pos, 10nat,
{
    let target = binary(ts, pos, names, Level::Equality);
    match target.result {
        Err(_) => target,
        Ok(l) => if target.advanced(pos, ts.len()) && next_is(ts, target.pos, TokenView::Assign) {
            let value = assignment(ts, target.pos + 1, target.names);
            match value.result {
                Err(_) => value,
                Ok(r) => Parsed::ok(
                    NodeView::Assign { l: Box::new(l), r: Box::new(r) },
                    value.pos,
                    value.names,
                ),
            }
        } else {
            target
        },
    }
}

/// `expression = assignment`
pub open spec fn expression(ts: Seq<TokenView>, pos: nat, names: Seq<Seq<char>>) -> Parsed<
    NodeView,
>
    decreases ts.len() - pos, 11nat,
{
    assignment(ts, pos, names)
}

/// An expression between `(` and `)`.
pub open spec fn condition(ts: Seq<TokenView>, pos: nat, names: Seq<Seq<char>>) -> Parsed<
    NodeView,
>
    decreases ts.len() - pos, 12nat,
{
    let open = expect(ts, pos, names, TokenView::LeftParen);
    match open.result {
        Err(e) => Parsed::err(e, open.pos, open.names),
        Ok(_) => {
            let cond = expression(ts, open.pos, open.names);
            match cond.result {
                Err(_) => cond,
                Ok(node) => {
                    let close = expect(ts, cond.pos, cond.names, TokenView::RightParen);
                    match close.result {
                        Err(e) => Parsed::err(e, close.pos, close.names),
                        Ok(_) => Parsed::ok(node, close.pos, close.names),
                    }
                },
            }
        },
    }
}

/// A clause of `for` that may be absent, with the delimiter `end` that closes
/// it. The clause is absent where the next token is `end`.
pub open spec fn clause(ts: Seq<TokenView>, pos: nat, names: Seq<Seq<char>>, end: TokenView)
    -> Parsed<Option<Box<NodeView>>>
    decreases ts.len() - pos, 12nat,
{
    if next_is(ts, pos, end) {
        Parsed::ok(None, pos + 1, names)
    } else {
        let present = expression(ts, pos, names);
        match present.result {
            Err(e) => Parsed::err(e, present.pos, present.names),
            Ok(node) => {
                let close = expect(ts, present.pos, present.names, end);
                match close.result {
                    Err(e) => Parsed::err(e, close.pos, close.names),
                    Ok(_) => Parsed::ok(Some(Box::new(node)), close.pos, close.names),
                }
            },
        }
    }
}

/// One statement.
pub open spec fn statement(ts: Seq<TokenView>, pos: nat, names: Seq<Seq<char>>) -> Parsed<
    NodeView,
>
    decreases ts.len() - pos, 13nat,
{
    if pos >= ts.len() {
        Parsed::err(ParserErrorView::NotEnoughTokens, pos, names)
    } else {
        match ts[pos as int] {
            TokenView::LeftBrace => block_rest(ts, pos + 1, names, Seq::empty()),
            TokenView::Return => return_rest(ts, pos + 1, names),
            TokenView::If => if_rest(ts, pos + 1, names),
            TokenView::While => while_rest(ts, pos + 1, names),
            TokenView::For => for_rest(ts, pos + 1, names),
            _ => terminated(ts, pos, names),
        }
    }
}

/// An expression followed by a semicolon.
pub open spec fn terminated(ts: Seq<TokenView>, pos: nat, names: Seq<Seq<char>>) -> Parsed<
    NodeView,
>
    decreases ts.len() - pos, 12nat,
{
    let value = expression(ts, pos, names);
    match value.result {
        Err(_) => value,
        Ok(node) => {
            let end = expect(ts, value.pos, value.names, TokenView::Semicolon);
            match end.result {
                Err(e) => Parsed::err(e, end.pos, end.names),
                Ok(_) => Parsed::ok(node, end.pos, end.names),
            }
        },
    }
}

/// What follows the word `return`: the value and a semicolon.
pub open spec fn return_rest(ts: Seq<TokenView>, pos: nat, names: Seq<Seq<char>>) -> Parsed<
    NodeView,
>
    decreases ts.len() - pos, 14nat,
{
    let value = terminated(ts, pos, names);
    match value.result {
        Err(_) => value,
        Ok(node) => Parsed::ok(NodeView::Return { expr: Box::new(node) }, value.pos, value.names),
    }
}

/// What follows the word `if`: the condition in parentheses, the statement
/// for a condition that holds and, after `else`, the one for a condition that
/// does not.
pub open spec fn if_rest(ts: Seq<TokenView>, pos: nat, names: Seq<Seq<char>>) -> Parsed<NodeView>
    decreases ts.len() - pos, 14nat,
{
    let cond = condition(ts, pos, names);
    match cond.result {
        Err(_) => cond,
        Ok(c) => if !cond.advanced(pos, ts.len()) {
            cond
        } else {
            let then = statement(ts, cond.pos, cond.names);
            match then.result {
                Err(_) => then,
                Ok(t) => if !then.advanced(pos, ts.len()) {
                    then
                } else {
                    else_rest(ts, then.pos, then.names, c, t)
                },
            }
        },
    }
}

/// What follows the first statement `then` of an `if` with the condition
/// `cond`: the word `else` and a second statement, or nothing.
pub open spec fn else_rest(
    ts: Seq<TokenView>,
    pos: nat,
    names: Seq<Seq<char>>,
    cond: NodeView,
    then: NodeView,
) -> Parsed<NodeView>
    decreases ts.len() - pos, 14nat,
{
    if next_is(ts, pos, TokenView::Else) {
        let els = statement(ts, pos + 1, names);
        match els.result {
            Err(_) => els,
            Ok(e) => Parsed::ok(
                NodeView::If { cond: Box::new(cond), then: Box::new(then), els: Some(Box::new(e)) },
                els.pos,
                els.names,
            ),
        }
    } else {
        Parsed::ok(
            NodeView::If { cond: Box::new(cond), then: Box::new(then), els: None },
            pos,
            names,
        )
    }
}

/// What follows the word `while`: the condition in parentheses and the
/// body.
pub open spec fn while_rest(ts: Seq<TokenView>, pos: nat, names: Seq<Seq<char>>) -> Parsed<
    NodeView,
>
    decreases ts.len() - pos, 14nat,
{
    let cond = condition(ts, pos, names);
    match cond.result {
        Err(_) => cond,
        Ok(c) => if !cond.advanced(pos, ts.len()) {
            cond
        } else {
            let then = statement(ts, cond.pos, cond.names);
            match then.result {
                Err(_) => then,
                Ok(t) => Parsed::ok(
                    NodeView::While { cond: Box::new(c), then: Box::new(t) },
                    then.pos,
                    then.names,
                ),
            }
        },
    }
}

/// What follows the word `for`: the three clauses in parentheses, then the
/// body.
pub open spec fn for_rest(ts: Seq<TokenView>, pos: nat, names: Seq<Seq<char>>) -> Parsed<NodeView>
    decreases ts.len() - pos, 14nat,
{
    let open = expect(ts, pos, names, TokenView::LeftParen);
    match open.result {
        Err(e) => Parsed::err(e, open.pos, open.names),
        Ok(_) => {
            let init = clause(ts, open.pos, open.names, TokenView::Semicolon);
            match init.result {
                Err(e) => Parsed::err(e, init.pos, init.names),
                Ok(i) => if !init.advanced(pos, ts.len()) {
                    Parsed::err(ParserErrorView::NotEnoughTokens, init.pos, init.names)
                } else {
                    let cond = clause(ts, init.pos, init.names, TokenView::Semicolon);
                    match cond.result {
                        Err(e) => Parsed::err(e, cond.pos, cond.names),
                        Ok(c) => if !cond.advanced(pos, ts.len()) {
                            Parsed::err(ParserErrorView::NotEnoughTokens, cond.pos, cond.names)
                        } else {
                            let step = clause(ts, cond.pos, cond.names, TokenView::RightParen);
                            match step.result {
                                Err(e) => Parsed::err(e, step.pos, step.names),
                                Ok(s) => if !step.advanced(pos, ts.len()) {
                                    Parsed::err(
                                        ParserErrorView::NotEnoughTokens,
                                        step.pos,
                                        step.names,
                                    )
                                } else {
                                    let then = statement(ts, step.pos, step.names);
                                    match then.result {
                                        Err(_) => then,
                                        Ok(t) => Parsed::ok(
                                            NodeView::For {
                                                init: i,
                                                cond: c,
                                                step: s,
                                                then: Box::new(t),
                                            },
                                            then.pos,
                                            then.names,
                                        ),
                                    }
                                },
                            }
                        },
                    }
                },
            }
        },
    }
}

/// The statements of a block after `done`, up to the closing brace.
pub open spec fn block_rest(
    ts: Seq<TokenView>,
    pos: nat,
    names: Seq<Seq<char>>,
    done: Seq<NodeView>,
) -> Parsed<NodeView>
    decreases ts.len() - pos, 14nat,
{
    if next_is(ts, pos, TokenView::RightBrace) {
        Parsed::ok(NodeView::Block { stmts: done }, pos + 1, names)
    } else {
        let next = statement(ts, pos, names);
        match next.result {
            Err(_) => next,
            Ok(node) => if next.advanced(pos, ts.len()) {
                block_rest(ts, next.pos, next.names, done.push(node))
            } else {
                next
            },
        }
    }
}

/// The statements of the program after `done`, up to the end-of-input
/// marker.
pub open spec fn program_rest(
    ts: Seq<TokenView>,
    pos: nat,
    names: Seq<Seq<char>>,
    done: Seq<NodeView>,
) -> Parsed<Seq<NodeView>>
    decreases ts.len() - pos, 14nat,
{
    if next_is(ts, pos, TokenView::EOF) {
        Parsed::ok(done, pos + 1, names)
    } else {
        let next = statement(ts, pos, names);
        match next.result {
            Err(e) => Parsed::err(e, next.pos, next.names),
            Ok(node) => if next.advanced(pos, ts.len()) {
                program_rest(ts, next.pos, next.names, done.push(node))
            } else {
                Parsed::err(ParserErrorView::NotEnoughTokens, next.pos, next.names)
            },
        }
    }
}

/// `program = statement*`, closed by the end-of-input marker.
pub open spec fn program(ts: Seq<TokenView>, pos: nat, names: Seq<Seq<char>>) -> Parsed<
    Seq<NodeView>,
> {
    program_rest(ts, pos, names, Seq::empty())
}

} // verus!
