//! How the parser groups operands: operators of one level group from the
//! left, an operator of a tighter level takes its operands first, and a sign
//! belongs to the operand behind it.
//!
//! The first law, of chains of any length, holds of all operands. The laws
//! behind it speak of plain trees as operands: numbers, and expressions in
//! parentheses without a variable.
use crate::ast::grammar::{
    apply, assignment, binary, binary_rest, expect, expression, operand, operator_at, primary,
    statement, terminated, unary, Level, Parsed,
};
use crate::ast::node::{BinOp, NodeView};
use crate::ast::progress::lemma_operand_moves;
use crate::ast::unparse::{
    ends_levels, lemma_closers, lemma_lift, lemma_occurs_prefix, lemma_occurs_split, lemma_operand,
    lemma_primary_of_unparsed, lemma_rise, lemma_unparse_first, looser, plain, unparse,
};
use crate::lexer::TokenView;
use vstd::prelude::*;

verus! {

/// One operator of a chain with the operand on its right: the operator, whether
/// its token asks for the operands to change places, and the tree of the
/// operand.
pub struct Link {
    pub op: BinOp,
    pub swap: bool,
    pub node: NodeView,
}

/// The tree of a chain that begins with the tree `left` and goes on with
/// `links`: each operator is applied to all that stands before it and to the
/// operand behind it.
pub open spec fn fold(left: NodeView, links: Seq<Link>) -> NodeView
    decreases links.len(),
{
    if links.len() == 0 {
        left
    } else {
        fold(
            apply(links.first().op, links.first().swap, left, links.first().node),
            links.drop_first(),
        )
    }
}

/// Whether the tokens from `pos` on are the operators of `links`, all of
/// `level`, each followed by an operand of `level` with the tree of its link,
/// and behind the last operand, at `end` with the names `after`, the tokens
/// end or go on with a token that is no operator of `level`.
pub open spec fn goes_on(
    ts: Seq<TokenView>,
    pos: nat,
    names: Seq<Seq<char>>,
    level: Level,
    links: Seq<Link>,
    end: nat,
    after: Seq<Seq<char>>,
) -> bool
    decreases links.len(),
{
    if links.len() == 0 {
        pos == end && names == after && (pos >= ts.len() || operator_at(level, ts[pos as int])
            is None)
    } else {
        let right = operand(ts, pos + 1, names, level);
        &&& pos < ts.len()
        &&& operator_at(level, ts[pos as int]) == Some((links.first().op, links.first().swap))
        &&& right.result == Ok::<NodeView, crate::ast::grammar::ParserErrorView>(
            links.first().node,
        )
        &&& goes_on(ts, right.pos, right.names, level, links.drop_first(), end, after)
    }
}

/// The operators of one level that follow a tree are folded into it from the
/// left, however many they are, and the token behind the last operand stays
/// unread.
pub proof fn lemma_rest_folds(
    ts: Seq<TokenView>,
    pos: nat,
    names: Seq<Seq<char>>,
    level: Level,
    left: NodeView,
    links: Seq<Link>,
    end: nat,
    after: Seq<Seq<char>>,
)
    requires
        goes_on(ts, pos, names, level, links, end, after),
    ensures
        binary_rest(ts, pos, names, level, left) == Parsed::ok(fold(left, links), end, after),
    decreases links.len(),
{
    if links.len() > 0 {
        let right = operand(ts, pos + 1, names, level);
        lemma_operand_moves(ts, pos + 1, names, level);
        lemma_rest_folds(
            ts,
            right.pos,
            right.names,
            level,
            apply(links.first().op, links.first().swap, left, links.first().node),
            links.drop_first(),
            end,
            after,
        );
    }
}

/// A chain of operands with operators of one level between them is the left
/// fold of its operands, however many they are: `m0 + m1 - m2 + m3` is
/// `((m0 + m1) - m2) + m3`. Exactly the tokens of the chain are read.
pub proof fn lemma_chain_folds(
    ts: Seq<TokenView>,
    pos: nat,
    names: Seq<Seq<char>>,
    level: Level,
    links: Seq<Link>,
    end: nat,
    after: Seq<Seq<char>>,
)
    requires
        pos <= ts.len(),
        operand(ts, pos, names, level).result is Ok,
        goes_on(
            ts,
            operand(ts, pos, names, level).pos,
            operand(ts, pos, names, level).names,
            level,
            links,
            end,
            after,
        ),
    ensures
        binary(ts, pos, names, level) == Parsed::ok(
            fold(operand(ts, pos, names, level).result->Ok_0, links),
            end,
            after,
        ),
{
    let first = operand(ts, pos, names, level);
    lemma_operand_moves(ts, pos, names, level);
    lemma_rest_folds(ts, first.pos, first.names, level, first.result->Ok_0, links, end, after);
}

/// The tokens of three plain trees with `t1` and `t2` between them and a
/// semicolon behind them.
pub open spec fn chain(a: NodeView, t1: TokenView, b: NodeView, t2: TokenView, c: NodeView) -> Seq<
    TokenView,
> {
    unparse(a) + seq![t1] + unparse(b) + seq![t2] + unparse(c) + seq![TokenView::Semicolon]
}

/// A token is an operator of one level at most, and `=` is of none.
pub proof fn lemma_one_level(token: TokenView, level: Level)
    requires
        operator_at(level, token) is Some,
    ensures
        forall|k: Level| k != level ==> #[trigger] operator_at(k, token) is None,
        token != TokenView::Assign,
        token != TokenView::Semicolon,
{
}

/// Where the parts of a chain stand, and what the parser makes of each
/// operand.
pub proof fn lemma_chain_parts(
    names: Seq<Seq<char>>,
    a: NodeView,
    t1: TokenView,
    b: NodeView,
    t2: TokenView,
    c: NodeView,
)
    requires
        plain(a),
        plain(b),
        plain(c),
    ensures
        ({
            let ts = chain(a, t1, b, t2, c);
            let m1 = unparse(a).len();
            let m2 = m1 + 1 + unparse(b).len();
            let end = m2 + 1 + unparse(c).len();
            &&& ts.len() == end + 1
            &&& 0 < m1
            &&& m1 + 1 < m2
            &&& m2 + 1 < end
            &&& ts[m1 as int] == t1
            &&& ts[m2 as int] == t2
            &&& ts[end as int] == TokenView::Semicolon
            &&& ts[0] is Num || ts[0] is LeftParen
            &&& ts[m1 as int + 1] is Num || ts[m1 as int + 1] is LeftParen
            &&& ts[m2 as int + 1] is Num || ts[m2 as int + 1] is LeftParen
            &&& primary(ts, 0, names) == Parsed::ok(a, m1, names)
            &&& primary(ts, m1 + 1, names) == Parsed::ok(b, m2, names)
            &&& primary(ts, m2 + 1, names) == Parsed::ok(c, end, names)
        }),
{
    let ts = chain(a, t1, b, t2, c);
    let at = unparse(a);
    let bt = unparse(b);
    let ct = unparse(c);
    let s1 = seq![t1];
    let s2 = seq![t2];
    let semi = seq![TokenView::Semicolon];
    let m1 = at.len();
    let m2 = m1 + 1 + bt.len();
    let end = m2 + 1 + ct.len();
    lemma_occurs_prefix(at + s1 + bt + s2 + ct, semi);
    lemma_occurs_split(ts, 0, at + s1 + bt + s2, ct);
    lemma_occurs_split(ts, 0, at + s1 + bt, s2);
    lemma_occurs_split(ts, 0, at + s1, bt);
    lemma_occurs_split(ts, 0, at, s1);
    lemma_unparse_first(a);
    lemma_unparse_first(b);
    lemma_unparse_first(c);
    assert(s1[0] == t1);
    assert(s2[0] == t2);
    assert(semi[0] == TokenView::Semicolon);
    assert(ts[0int + 0] == at[0]);
    assert(ts[m1 as int + 0] == s1[0]);
    assert(ts[m1 as int + 1 + 0] == bt[0]);
    assert(ts[m2 as int + 0] == s2[0]);
    assert(ts[m2 as int + 1 + 0] == ct[0]);
    assert(ts[end as int + 0] == semi[0]);
    lemma_primary_of_unparsed(ts, 0, names, a);
    lemma_primary_of_unparsed(ts, m1 + 1, names, b);
    lemma_primary_of_unparsed(ts, m2 + 1, names, c);
}

/// A chain of some level that begins with an operand or a sign and ends at
/// a semicolon is a statement.
pub proof fn lemma_statement_of_chain(
    ts: Seq<TokenView>,
    names: Seq<Seq<char>>,
    node: NodeView,
    end: nat,
    level: Level,
)
    requires
        binary(ts, 0, names, level) == Parsed::ok(node, end, names),
        0 < end < ts.len(),
        ts[end as int] == TokenView::Semicolon,
        ts[0] is Num || ts[0] is LeftParen || ts[0] is Minus || ts[0] is Plus,
    ensures
        statement(ts, 0, names) == Parsed::ok(node, end + 1, names),
{
    lemma_closers(ts[end as int]);
    if level != Level::Equality {
        let next = looser(level);
        assert(operand(ts, 0, names, next) == binary(ts, 0, names, level));
        assert(ends_levels(ts[end as int], next, Level::Equality));
        lemma_rise(ts, 0, names, node, end, next, Level::Equality);
    }
    assert(assignment(ts, 0, names) == Parsed::ok(node, end, names));
    assert(expression(ts, 0, names) == Parsed::ok(node, end, names));
    assert(expect(ts, end, names, TokenView::Semicolon) == Parsed::ok((), end + 1, names));
    assert(terminated(ts, 0, names) == Parsed::ok(node, end + 1, names));
}

/// A chain of the level `from`, followed by a token that is no operator of
/// a level between `from` and `to`, is an operand of the looser level `to`.
pub proof fn lemma_operand_of_chain(
    ts: Seq<TokenView>,
    pos: nat,
    names: Seq<Seq<char>>,
    node: NodeView,
    end: nat,
    from: Level,
    to: Level,
)
    requires
        binary(ts, pos, names, from) == Parsed::ok(node, end, names),
        pos < end < ts.len(),
        from.rank() < to.rank(),
        forall|k: Level|
            from.rank() < k.rank() < to.rank() ==> #[trigger] operator_at(k, ts[end as int])
                is None,
    ensures
        operand(ts, pos, names, to) == Parsed::ok(node, end, names),
    decreases to.rank() - from.rank(),
{
    let next = looser(from);
    assert(operand(ts, pos, names, next) == binary(ts, pos, names, from));
    if next != to {
        assert(operator_at(next, ts[end as int]) is None);
        lemma_lift(ts, pos, names, node, end, next);
        lemma_operand_of_chain(ts, pos, names, node, end, next, to);
    }
}

/// Operators of one level group from the left: `a - b - c` is
/// `(a - b) - c`.
pub proof fn lemma_groups_from_left(
    names: Seq<Seq<char>>,
    level: Level,
    a: NodeView,
    t1: TokenView,
    b: NodeView,
    t2: TokenView,
    c: NodeView,
)
    requires
        plain(a),
        plain(b),
        plain(c),
        operator_at(level, t1) is Some,
        operator_at(level, t2) is Some,
    ensures
        ({
            let (op1, swap1) = operator_at(level, t1)->0;
            let (op2, swap2) = operator_at(level, t2)->0;
            statement(chain(a, t1, b, t2, c), 0, names) == Parsed::ok(
                apply(op2, swap2, apply(op1, swap1, a, b), c),
                chain(a, t1, b, t2, c).len(),
                names,
            )
        }),
{
    let ts = chain(a, t1, b, t2, c);
    let m1 = unparse(a).len();
    let m2 = m1 + 1 + unparse(b).len();
    let end = m2 + 1 + unparse(c).len();
    let (op1, swap1) = operator_at(level, t1)->0;
    let (op2, swap2) = operator_at(level, t2)->0;
    let ab = apply(op1, swap1, a, b);
    let abc = apply(op2, swap2, ab, c);
    lemma_chain_parts(names, a, t1, b, t2, c);
    lemma_one_level(t1, level);
    lemma_one_level(t2, level);
    lemma_closers(ts[end as int]);
    lemma_operand(ts, 0, names, a, m1, level);
    lemma_operand(ts, m1 + 1, names, b, m2, level);
    lemma_operand(ts, m2 + 1, names, c, end, level);
    assert(operator_at(level, ts[end as int]) is None);
    assert(binary_rest(ts, end, names, level, abc) == Parsed::ok(abc, end, names));
    assert(binary_rest(ts, m2, names, level, ab) == Parsed::ok(abc, end, names));
    assert(binary_rest(ts, m1, names, level, a) == Parsed::ok(abc, end, names));
    assert(binary(ts, 0, names, level) == Parsed::ok(abc, end, names));
    lemma_statement_of_chain(ts, names, abc, end, level);
}

/// An operator of a tighter level takes its operands first, wherever it
/// stands: `a * b + c` is `(a * b) + c`.
pub proof fn lemma_tighter_on_the_left(
    names: Seq<Seq<char>>,
    tight: Level,
    loose: Level,
    a: NodeView,
    t1: TokenView,
    b: NodeView,
    t2: TokenView,
    c: NodeView,
)
    requires
        plain(a),
        plain(b),
        plain(c),
        tight.rank() < loose.rank(),
        operator_at(tight, t1) is Some,
        operator_at(loose, t2) is Some,
    ensures
        ({
            let (op1, swap1) = operator_at(tight, t1)->0;
            let (op2, swap2) = operator_at(loose, t2)->0;
            statement(chain(a, t1, b, t2, c), 0, names) == Parsed::ok(
                apply(op2, swap2, apply(op1, swap1, a, b), c),
                chain(a, t1, b, t2, c).len(),
                names,
            )
        }),
{
    let ts = chain(a, t1, b, t2, c);
    let m1 = unparse(a).len();
    let m2 = m1 + 1 + unparse(b).len();
    let end = m2 + 1 + unparse(c).len();
    let (op1, swap1) = operator_at(tight, t1)->0;
    let (op2, swap2) = operator_at(loose, t2)->0;
    let ab = apply(op1, swap1, a, b);
    let abc = apply(op2, swap2, ab, c);
    lemma_chain_parts(names, a, t1, b, t2, c);
    lemma_one_level(t1, tight);
    lemma_one_level(t2, loose);
    lemma_closers(ts[end as int]);
    lemma_operand(ts, 0, names, a, m1, tight);
    lemma_operand(ts, m1 + 1, names, b, m2, tight);
    assert(operator_at(tight, ts[m2 as int]) is None);
    assert(binary_rest(ts, m2, names, tight, ab) == Parsed::ok(ab, m2, names));
    assert(binary_rest(ts, m1, names, tight, a) == Parsed::ok(ab, m2, names));
    assert(binary(ts, 0, names, tight) == Parsed::ok(ab, m2, names));
    lemma_operand_of_chain(ts, 0, names, ab, m2, tight, loose);
    lemma_operand(ts, m2 + 1, names, c, end, loose);
    assert(operator_at(loose, ts[end as int]) is None);
    assert(binary_rest(ts, end, names, loose, abc) == Parsed::ok(abc, end, names));
    assert(binary_rest(ts, m2, names, loose, ab) == Parsed::ok(abc, end, names));
    assert(binary(ts, 0, names, loose) == Parsed::ok(abc, end, names));
    lemma_statement_of_chain(ts, names, abc, end, loose);
}

/// An operator of a tighter level takes its operands first, wherever it
/// stands: `a + b * c` is `a + (b * c)`.
pub proof fn lemma_tighter_on_the_right(
    names: Seq<Seq<char>>,
    loose: Level,
    tight: Level,
    a: NodeView,
    t1: TokenView,
    b: NodeView,
    t2: TokenView,
    c: NodeView,
)
    requires
        plain(a),
        plain(b),
        plain(c),
        tight.rank() < loose.rank(),
        operator_at(loose, t1) is Some,
        operator_at(tight, t2) is Some,
    ensures
        ({
            let (op1, swap1) = operator_at(loose, t1)->0;
            let (op2, swap2) = operator_at(tight, t2)->0;
            statement(chain(a, t1, b, t2, c), 0, names) == Parsed::ok(
                apply(op1, swap1, a, apply(op2, swap2, b, c)),
                chain(a, t1, b, t2, c).len(),
                names,
            )
        }),
{
    let ts = chain(a, t1, b, t2, c);
    let m1 = unparse(a).len();
    let m2 = m1 + 1 + unparse(b).len();
    let end = m2 + 1 + unparse(c).len();
    let (op1, swap1) = operator_at(loose, t1)->0;
    let (op2, swap2) = operator_at(tight, t2)->0;
    let bc = apply(op2, swap2, b, c);
    let abc = apply(op1, swap1, a, bc);
    lemma_chain_parts(names, a, t1, b, t2, c);
    lemma_one_level(t1, loose);
    lemma_one_level(t2, tight);
    lemma_closers(ts[end as int]);
    lemma_operand(ts, 0, names, a, m1, loose);
    lemma_operand(ts, m1 + 1, names, b, m2, tight);
    lemma_operand(ts, m2 + 1, names, c, end, tight);
    assert(operator_at(tight, ts[end as int]) is None);
    assert(binary_rest(ts, end, names, tight, bc) == Parsed::ok(bc, end, names));
    assert(binary_rest(ts, m2, names, tight, b) == Parsed::ok(bc, end, names));
    assert(binary(ts, m1 + 1, names, tight) == Parsed::ok(bc, end, names));
    lemma_operand_of_chain(ts, m1 + 1, names, bc, end, tight, loose);
    assert(operator_at(loose, ts[end as int]) is None);
    assert(binary_rest(ts, end, names, loose, abc) == Parsed::ok(abc, end, names));
    assert(binary_rest(ts, m1, names, loose, a) == Parsed::ok(abc, end, names));
    assert(binary(ts, 0, names, loose) == Parsed::ok(abc, end, names));
    lemma_statement_of_chain(ts, names, abc, end, loose);
}

/// The tokens of a plain tree with a sign before it and a semicolon behind
/// it.
pub open spec fn signed(sign: TokenView, a: NodeView) -> Seq<TokenView> {
    seq![sign] + unparse(a) + seq![TokenView::Semicolon]
}

/// A minus sign before an operand is zero minus the operand; a plus sign
/// before an operand is the operand.
pub proof fn lemma_signs(names: Seq<Seq<char>>, a: NodeView)
    requires
        plain(a),
    ensures
        statement(signed(TokenView::Minus, a), 0, names) == Parsed::ok(
            NodeView::binary(BinOp::Sub, NodeView::Num(0), a),
            signed(TokenView::Minus, a).len(),
            names,
        ),
        statement(signed(TokenView::Plus, a), 0, names) == Parsed::ok(
            a,
            signed(TokenView::Plus, a).len(),
            names,
        ),
{
    lemma_sign(names, TokenView::Minus, a);
    lemma_sign(names, TokenView::Plus, a);
}

/// What the parser makes of an operand with one sign before it.
proof fn lemma_sign(names: Seq<Seq<char>>, sign: TokenView, a: NodeView)
    requires
        plain(a),
        sign == TokenView::Minus || sign == TokenView::Plus,
    ensures
        statement(signed(sign, a), 0, names) == Parsed::ok(
            if sign == TokenView::Minus {
                NodeView::binary(BinOp::Sub, NodeView::Num(0), a)
            } else {
                a
            },
            signed(sign, a).len(),
            names,
        ),
{
    let ts = signed(sign, a);
    let at = unparse(a);
    let first = seq![sign];
    let semi = seq![TokenView::Semicolon];
    let end = (1 + at.len()) as nat;
    let node = if sign == TokenView::Minus {
        NodeView::binary(BinOp::Sub, NodeView::Num(0), a)
    } else {
        a
    };
    lemma_occurs_prefix(first + at, semi);
    lemma_occurs_split(ts, 0, first, at);
    lemma_unparse_first(a);
    assert(first[0] == sign);
    assert(semi[0] == TokenView::Semicolon);
    assert(ts[0int + 0] == first[0]);
    assert(ts[end as int + 0] == semi[0]);
    lemma_primary_of_unparsed(ts, 1, names, a);
    assert(unary(ts, 0, names) == Parsed::ok(node, end, names));
    assert(operand(ts, 0, names, Level::Multiplicative) == unary(ts, 0, names));
    lemma_closers(ts[end as int]);
    lemma_rise(ts, 0, names, node, end, Level::Multiplicative, Level::Equality);
    lemma_statement_of_chain(ts, names, node, end, Level::Equality);
}

} // verus!
