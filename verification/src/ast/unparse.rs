//! From trees back to tokens: the parser reads the tokens of the canonical
//! text of an expression as that expression.
//!
//! The canonical text puts every operator application in parentheses, so its
//! tokens say how they group. [`unparse`] gives these tokens for a tree of
//! numbers, operators and assignments, and [`lemma_program_of_unparsed`]
//! shows that [`crate::ast::grammar::program`] makes the trees of them again.
use crate::ast::grammar::{
    apply, assignment, binary, binary_rest, expect, expression, next_is, operand, operator_at,
    primary, program, program_rest, statement, terminated, unary, Level, Parsed,
};
use crate::ast::node::{BinOp, NodeView};
use crate::lexer::TokenView;
use vstd::prelude::*;

verus! {

/// Whether a tree is made of numbers, operators with two operands and
/// assignments alone: an expression without a variable.
pub open spec fn plain(n: NodeView) -> bool
    decreases n,
{
    match n {
        NodeView::Num(_) => true,
        NodeView::Assign { l, r } => plain(*l) && plain(*r),
        NodeView::Binary { op, l, r } => plain(*l) && plain(*r),
        _ => false,
    }
}

/// Whether every tree of a sequence is plain.
pub open spec fn all_plain(nodes: Seq<NodeView>) -> bool {
    forall|i: int| 0 <= i < nodes.len() ==> plain(#[trigger] nodes[i])
}

/// The token that an operator is written with.
pub open spec fn operator_token(op: BinOp) -> TokenView {
    match op {
        BinOp::Add => TokenView::Plus,
        BinOp::Sub => TokenView::Minus,
        BinOp::Mul => TokenView::Multiply,
        BinOp::Div => TokenView::Divide,
        BinOp::Lt => TokenView::LessThan,
        BinOp::Le => TokenView::LessThanOrEqual,
        BinOp::Eq => TokenView::Equal,
        BinOp::Ne => TokenView::NotEqual,
    }
}

/// The precedence level of an operator.
pub open spec fn level_of(op: BinOp) -> Level {
    match op {
        BinOp::Mul | BinOp::Div => Level::Multiplicative,
        BinOp::Add | BinOp::Sub => Level::Additive,
        BinOp::Lt | BinOp::Le => Level::Relational,
        BinOp::Eq | BinOp::Ne => Level::Equality,
    }
}

/// Two token sequences with a token between them, in parentheses.
pub open spec fn group(l: Seq<TokenView>, op: TokenView, r: Seq<TokenView>) -> Seq<TokenView> {
    seq![TokenView::LeftParen] + l + seq![op] + r + seq![TokenView::RightParen]
}

/// The tokens of the canonical text of a plain tree.
pub open spec fn unparse(n: NodeView) -> Seq<TokenView>
    decreases n,
{
    match n {
        NodeView::Num(v) => seq![TokenView::Num(v)],
        NodeView::Assign { l, r } => group(unparse(*l), TokenView::Assign, unparse(*r)),
        NodeView::Binary { op, l, r } => group(unparse(*l), operator_token(op), unparse(*r)),
        _ => Seq::empty(),
    }
}

/// The tokens of the canonical text of a sequence of plain trees: each one
/// followed by a semicolon.
pub open spec fn unparse_all(nodes: Seq<NodeView>) -> Seq<TokenView>
    decreases nodes.len(),
{
    if nodes.len() == 0 {
        Seq::empty()
    } else {
        unparse_all(nodes.drop_last()) + unparse(nodes.last()) + seq![TokenView::Semicolon]
    }
}

/// Whether `part` stands in `s` from index `pos` on.
pub open spec fn occurs<A>(s: Seq<A>, pos: int, part: Seq<A>) -> bool {
    &&& 0 <= pos
    &&& pos + part.len() <= s.len()
    &&& forall|i: int| 0 <= i < part.len() ==> s[pos + i] == #[trigger] part[i]
}

/// Where `a + b` stands, `a` stands, and `b` behind it.
pub proof fn lemma_occurs_split<A>(s: Seq<A>, pos: int, a: Seq<A>, b: Seq<A>)
    requires
        occurs(s, pos, a + b),
    ensures
        occurs(s, pos, a),
        occurs(s, pos + a.len(), b),
{
    let whole = a + b;
    assert forall|i: int| 0 <= i < a.len() implies s[pos + i] == #[trigger] a[i] by {
        assert(whole[i] == a[i]);
    }
    assert forall|i: int| 0 <= i < b.len() implies s[pos + a.len() + i] == #[trigger] b[i] by {
        assert(whole[a.len() + i] == b[i]);
    }
}

/// A sequence stands in itself at its start, and in what extends it.
pub proof fn lemma_occurs_prefix<A>(a: Seq<A>, b: Seq<A>)
    ensures
        occurs(a + b, 0, a),
        occurs(a + b, a.len() as int, b),
{
    let whole = a + b;
    assert forall|i: int| 0 <= i < a.len() implies whole[0 + i] == #[trigger] a[i] by {}
    assert forall|i: int| 0 <= i < b.len() implies whole[a.len() + i] == #[trigger] b[i] by {}
}

/// The parts of a group stand where the group stands.
pub proof fn lemma_group_parts(
    ts: Seq<TokenView>,
    pos: int,
    l: Seq<TokenView>,
    op: TokenView,
    r: Seq<TokenView>,
)
    requires
        occurs(ts, pos, group(l, op, r)),
    ensures
        group(l, op, r).len() == l.len() + r.len() + 3,
        ts[pos] == TokenView::LeftParen,
        occurs(ts, pos + 1, l),
        ts[pos + 1 + l.len()] == op,
        occurs(ts, pos + 2 + l.len(), r),
        ts[pos + 2 + l.len() + r.len()] == TokenView::RightParen,
{
    let open = seq![TokenView::LeftParen];
    let mid = seq![op];
    let close = seq![TokenView::RightParen];
    lemma_occurs_split(ts, pos, open + l + mid + r, close);
    lemma_occurs_split(ts, pos, open + l + mid, r);
    lemma_occurs_split(ts, pos, open + l, mid);
    lemma_occurs_split(ts, pos, open, l);
    assert(open[0] == TokenView::LeftParen);
    assert(mid[0] == op);
    assert(close[0] == TokenView::RightParen);
    assert(ts[pos as int + 0] == open[0]);
    assert(ts[pos + (open + l).len() + 0] == mid[0]);
    assert(ts[pos + (open + l + mid + r).len() + 0] == close[0]);
}

/// The tokens of a plain tree begin with a number or an opening parenthesis.
pub proof fn lemma_unparse_first(n: NodeView)
    requires
        plain(n),
    ensures
        unparse(n).len() >= 1,
        unparse(n)[0] is Num || unparse(n)[0] is LeftParen,
{
    match n {
        NodeView::Num(v) => {},
        NodeView::Assign { l, r } => {
            assert(group(unparse(*l), TokenView::Assign, unparse(*r))[0] == TokenView::LeftParen);
        },
        NodeView::Binary { op, l, r } => {
            assert(group(unparse(*l), operator_token(op), unparse(*r))[0]
                == TokenView::LeftParen);
        },
        _ => {},
    }
}

/// Whether `token` is no operator of a level from `from` up to `to`.
pub open spec fn ends_levels(token: TokenView, from: Level, to: Level) -> bool {
    forall|k: Level| from.rank() <= k.rank() <= to.rank() ==> #[trigger] operator_at(k, token) is None
}

/// An operand that is followed by a token that is no operator of its level
/// is the whole chain of that level.
pub proof fn lemma_lift(
    ts: Seq<TokenView>,
    pos: nat,
    names: Seq<Seq<char>>,
    node: NodeView,
    end: nat,
    level: Level,
)
    requires
        operand(ts, pos, names, level) == Parsed::ok(node, end, names),
        pos < end < ts.len(),
        operator_at(level, ts[end as int]) is None,
    ensures
        binary(ts, pos, names, level) == Parsed::ok(node, end, names),
{
    assert(binary_rest(ts, end, names, level, node) == Parsed::ok(node, end, names));
}

/// The level that binds next looser than `level`.
pub open spec fn looser(level: Level) -> Level {
    match level {
        Level::Multiplicative => Level::Additive,
        Level::Additive => Level::Relational,
        Level::Relational => Level::Equality,
        Level::Equality => Level::Equality,
    }
}

/// An operand of the level `from` that is followed by a token that is no
/// operator of a level from `from` up to `to` is the whole chain of the
/// level `to`.
pub proof fn lemma_rise(
    ts: Seq<TokenView>,
    pos: nat,
    names: Seq<Seq<char>>,
    node: NodeView,
    end: nat,
    from: Level,
    to: Level,
)
    requires
        operand(ts, pos, names, from) == Parsed::ok(node, end, names),
        pos < end < ts.len(),
        from.rank() <= to.rank(),
        ends_levels(ts[end as int], from, to),
    ensures
        binary(ts, pos, names, to) == Parsed::ok(node, end, names),
    decreases to.rank() - from.rank(),
{
    assert(operator_at(from, ts[end as int]) is None);
    lemma_lift(ts, pos, names, node, end, from);
    if from != to {
        let next = looser(from);
        assert(operand(ts, pos, names, next) == binary(ts, pos, names, from));
        assert(ends_levels(ts[end as int], next, to)) by {
            assert forall|k: Level| next.rank() <= k.rank() <= to.rank() implies #[trigger] operator_at(
                k,
                ts[end as int],
            ) is None by {
                assert(from.rank() <= k.rank());
            }
        }
        lemma_rise(ts, pos, names, node, end, next, to);
    }
}

/// A primary expression without a sign, followed by a token that is no
/// operator of a level below `level`, is an operand of `level`.
pub proof fn lemma_operand(
    ts: Seq<TokenView>,
    pos: nat,
    names: Seq<Seq<char>>,
    node: NodeView,
    end: nat,
    level: Level,
)
    requires
        primary(ts, pos, names) == Parsed::ok(node, end, names),
        pos < end < ts.len(),
        ts[pos as int] != TokenView::Plus,
        ts[pos as int] != TokenView::Minus,
        forall|k: Level| k.rank() < level.rank() ==> #[trigger] operator_at(k, ts[end as int]) is None,
    ensures
        operand(ts, pos, names, level) == Parsed::ok(node, end, names),
{
    assert(unary(ts, pos, names) == primary(ts, pos, names));
    assert(operand(ts, pos, names, Level::Multiplicative) == unary(ts, pos, names));
    match level {
        Level::Multiplicative => {},
        Level::Additive => {
            lemma_rise(ts, pos, names, node, end, Level::Multiplicative, Level::Multiplicative);
        },
        Level::Relational => {
            lemma_rise(ts, pos, names, node, end, Level::Multiplicative, Level::Additive);
        },
        Level::Equality => {
            lemma_rise(ts, pos, names, node, end, Level::Multiplicative, Level::Relational);
        },
    }
}

/// A primary expression without a sign, followed by a token that is neither
/// an operator nor `=`, is an expression.
pub proof fn lemma_expression(
    ts: Seq<TokenView>,
    pos: nat,
    names: Seq<Seq<char>>,
    node: NodeView,
    end: nat,
)
    requires
        primary(ts, pos, names) == Parsed::ok(node, end, names),
        pos < end < ts.len(),
        ts[pos as int] != TokenView::Plus,
        ts[pos as int] != TokenView::Minus,
        ends_levels(ts[end as int], Level::Multiplicative, Level::Equality),
        ts[end as int] != TokenView::Assign,
    ensures
        binary(ts, pos, names, Level::Equality) == Parsed::ok(node, end, names),
        assignment(ts, pos, names) == Parsed::ok(node, end, names),
        expression(ts, pos, names) == Parsed::ok(node, end, names),
{
    assert(unary(ts, pos, names) == primary(ts, pos, names));
    assert(operand(ts, pos, names, Level::Multiplicative) == unary(ts, pos, names));
    lemma_rise(ts, pos, names, node, end, Level::Multiplicative, Level::Equality);
}

/// A closing parenthesis and a semicolon are neither operators nor `=`.
pub proof fn lemma_closers(token: TokenView)
    requires
        token == TokenView::RightParen || token == TokenView::Semicolon || token
            == TokenView::Assign,
    ensures
        ends_levels(token, Level::Multiplicative, Level::Equality),
{
}

/// An operator is an operator of its level alone.
pub proof fn lemma_operator_level(op: BinOp)
    ensures
        operator_at(level_of(op), operator_token(op)) == Some((op, false)),
        forall|k: Level|
            k.rank() < level_of(op).rank() ==> #[trigger] operator_at(k, operator_token(op))
                is None,
        operator_token(op) != TokenView::Assign,
{
}

/// Two operands with an operator token between them, and behind them a
/// token that is neither an operator nor `=`, are an expression: the
/// operator applied to the two, in the order that the token asks for.
pub proof fn lemma_operation(
    ts: Seq<TokenView>,
    pos: nat,
    names: Seq<Seq<char>>,
    level: Level,
    op: BinOp,
    swap: bool,
    l: NodeView,
    mid: nat,
    r: NodeView,
    end: nat,
)
    requires
        primary(ts, pos, names) == Parsed::ok(l, mid, names),
        primary(ts, mid + 1, names) == Parsed::ok(r, end, names),
        pos < mid,
        mid + 1 < end < ts.len(),
        ts[pos as int] != TokenView::Plus,
        ts[pos as int] != TokenView::Minus,
        ts[mid as int + 1] != TokenView::Plus,
        ts[mid as int + 1] != TokenView::Minus,
        operator_at(level, ts[mid as int]) == Some((op, swap)),
        forall|k: Level| k.rank() < level.rank() ==> #[trigger] operator_at(k, ts[mid as int]) is None,
        ends_levels(ts[end as int], Level::Multiplicative, Level::Equality),
        ts[end as int] != TokenView::Assign,
    ensures
        expression(ts, pos, names) == Parsed::ok(apply(op, swap, l, r), end, names),
{
    let node = apply(op, swap, l, r);
    lemma_operand(ts, pos, names, l, mid, level);
    lemma_operand(ts, (mid + 1) as nat, names, r, end, level);
    assert(operator_at(level, ts[end as int]) is None);
    assert(binary_rest(ts, end, names, level, node) == Parsed::ok(node, end, names));
    assert(binary_rest(ts, mid, names, level, l) == Parsed::ok(node, end, names));
    assert(binary(ts, pos, names, level) == Parsed::ok(node, end, names));
    if level != Level::Equality {
        let next = looser(level);
        assert(operand(ts, pos, names, next) == binary(ts, pos, names, level));
        assert(ends_levels(ts[end as int], next, Level::Equality));
        lemma_rise(ts, pos, names, node, end, next, Level::Equality);
    }
    assert(assignment(ts, pos, names) == Parsed::ok(node, end, names));
}

/// Two operands with an operator between them and a closing parenthesis
/// behind them are an expression: the operator applied to the two.
pub proof fn lemma_inner_binary(
    ts: Seq<TokenView>,
    pos: nat,
    names: Seq<Seq<char>>,
    op: BinOp,
    l: NodeView,
    mid: nat,
    r: NodeView,
    end: nat,
)
    requires
        primary(ts, pos, names) == Parsed::ok(l, mid, names),
        primary(ts, mid + 1, names) == Parsed::ok(r, end, names),
        pos < mid,
        mid + 1 < end < ts.len(),
        ts[pos as int] != TokenView::Plus,
        ts[pos as int] != TokenView::Minus,
        ts[mid as int + 1] != TokenView::Plus,
        ts[mid as int + 1] != TokenView::Minus,
        ts[mid as int] == operator_token(op),
        ts[end as int] == TokenView::RightParen,
    ensures
        expression(ts, pos, names) == Parsed::ok(NodeView::binary(op, l, r), end, names),
{
    lemma_operator_level(op);
    lemma_closers(ts[end as int]);
    lemma_operation(ts, pos, names, level_of(op), op, false, l, mid, r, end);
}

/// Two operands with `=` between them and a closing parenthesis behind them
/// are an expression: the assignment of the second to the first.
pub proof fn lemma_inner_assign(
    ts: Seq<TokenView>,
    pos: nat,
    names: Seq<Seq<char>>,
    l: NodeView,
    mid: nat,
    r: NodeView,
    end: nat,
)
    requires
        primary(ts, pos, names) == Parsed::ok(l, mid, names),
        primary(ts, mid + 1, names) == Parsed::ok(r, end, names),
        pos < mid,
        mid + 1 < end < ts.len(),
        ts[pos as int] != TokenView::Plus,
        ts[pos as int] != TokenView::Minus,
        ts[mid as int + 1] != TokenView::Plus,
        ts[mid as int + 1] != TokenView::Minus,
        ts[mid as int] == TokenView::Assign,
        ts[end as int] == TokenView::RightParen,
    ensures
        expression(ts, pos, names) == Parsed::ok(
            NodeView::Assign { l: Box::new(l), r: Box::new(r) },
            end,
            names,
        ),
{
    lemma_closers(ts[end as int]);
    lemma_closers(ts[mid as int]);
    lemma_expression(ts, (mid + 1) as nat, names, r, end);
    assert(unary(ts, pos, names) == primary(ts, pos, names));
    assert(operand(ts, pos, names, Level::Multiplicative) == unary(ts, pos, names));
    lemma_rise(ts, pos, names, l, mid, Level::Multiplicative, Level::Equality);
    assert(next_is(ts, mid, TokenView::Assign));
}

/// The parser reads the tokens of a plain tree as that tree, and meets no
/// variable on the way.
pub proof fn lemma_primary_of_unparsed(
    ts: Seq<TokenView>,
    pos: nat,
    names: Seq<Seq<char>>,
    n: NodeView,
)
    requires
        plain(n),
        occurs(ts, pos as int, unparse(n)),
    ensures
        primary(ts, pos, names) == Parsed::ok(n, pos + unparse(n).len(), names),
    decreases n,
{
    match n {
        NodeView::Num(v) => {
            assert(unparse(n)[0] == TokenView::Num(v));
            assert(ts[pos as int + 0] == unparse(n)[0]);
        },
        NodeView::Assign { l, r } => {
            let lt = unparse(*l);
            let rt = unparse(*r);
            lemma_group_parts(ts, pos as int, lt, TokenView::Assign, rt);
            lemma_unparse_first(*l);
            lemma_unparse_first(*r);
            let mid = (pos + 1 + lt.len()) as nat;
            let end = (mid + 1 + rt.len()) as nat;
            assert(ts[pos as int + 1 + 0] == lt[0]);
            assert(ts[pos as int + 2 + lt.len() + 0] == rt[0]);
            lemma_primary_of_unparsed(ts, pos + 1, names, *l);
            lemma_primary_of_unparsed(ts, mid + 1, names, *r);
            lemma_inner_assign(ts, pos + 1, names, *l, mid, *r, end);
            assert(expect(ts, end, names, TokenView::RightParen) == Parsed::ok((), end + 1, names));
        },
        NodeView::Binary { op, l, r } => {
            let lt = unparse(*l);
            let rt = unparse(*r);
            lemma_group_parts(ts, pos as int, lt, operator_token(op), rt);
            lemma_unparse_first(*l);
            lemma_unparse_first(*r);
            let mid = (pos + 1 + lt.len()) as nat;
            let end = (mid + 1 + rt.len()) as nat;
            assert(ts[pos as int + 1 + 0] == lt[0]);
            assert(ts[pos as int + 2 + lt.len() + 0] == rt[0]);
            lemma_primary_of_unparsed(ts, pos + 1, names, *l);
            lemma_primary_of_unparsed(ts, mid + 1, names, *r);
            lemma_inner_binary(ts, pos + 1, names, op, *l, mid, *r, end);
            assert(expect(ts, end, names, TokenView::RightParen) == Parsed::ok((), end + 1, names));
        },
        _ => {},
    }
}

/// The parser reads the tokens of a plain tree and a semicolon as the
/// statement of that tree.
pub proof fn lemma_statement_of_unparsed(
    ts: Seq<TokenView>,
    pos: nat,
    names: Seq<Seq<char>>,
    n: NodeView,
)
    requires
        plain(n),
        occurs(ts, pos as int, unparse(n) + seq![TokenView::Semicolon]),
    ensures
        statement(ts, pos, names) == Parsed::ok(n, pos + unparse(n).len() + 1, names),
{
    let end = pos + unparse(n).len();
    let semi = seq![TokenView::Semicolon];
    lemma_occurs_split(ts, pos as int, unparse(n), semi);
    assert(semi[0] == TokenView::Semicolon);
    assert(ts[end as int + 0] == semi[0]);
    lemma_unparse_first(n);
    assert(ts[pos as int + 0] == unparse(n)[0]);
    lemma_primary_of_unparsed(ts, pos, names, n);
    lemma_closers(ts[end as int]);
    lemma_expression(ts, pos, names, n, end);
    assert(expect(ts, end, names, TokenView::Semicolon) == Parsed::ok((), end + 1, names));
    assert(terminated(ts, pos, names) == Parsed::ok(n, end + 1, names));
}

/// The tokens of a sequence of trees begin with the tokens of each of its
/// prefixes.
pub proof fn lemma_unparse_all_take(nodes: Seq<NodeView>, k: int)
    requires
        0 <= k < nodes.len(),
    ensures
        unparse_all(nodes.take(k + 1)) == unparse_all(nodes.take(k)) + (unparse(nodes[k]) + seq![
            TokenView::Semicolon,
        ]),
        occurs(unparse_all(nodes), 0, unparse_all(nodes.take(k + 1))),
    decreases nodes.len() - k,
{
    let upto = nodes.take(k + 1);
    assert(upto.drop_last() =~= nodes.take(k));
    assert(upto.last() == nodes[k]);
    assert(unparse_all(upto) =~= unparse_all(nodes.take(k)) + (unparse(nodes[k]) + seq![
        TokenView::Semicolon,
    ]));
    if k + 1 == nodes.len() {
        assert(upto =~= nodes);
        lemma_occurs_prefix(unparse_all(nodes), Seq::<TokenView>::empty());
        assert(unparse_all(nodes) + Seq::<TokenView>::empty() =~= unparse_all(nodes));
    } else {
        lemma_unparse_all_take(nodes, k + 1);
        let longer = unparse_all(nodes.take(k + 2));
        let rest = unparse(nodes[k + 1]) + seq![TokenView::Semicolon];
        lemma_occurs_split(unparse_all(nodes), 0, unparse_all(upto), rest);
    }
}

/// From the `k`-th statement on, the parser reads the tokens of a sequence
/// of plain trees, closed by the end-of-input marker, as the rest of these
/// trees.
pub proof fn lemma_program_rest_of_unparsed(
    nodes: Seq<NodeView>,
    names: Seq<Seq<char>>,
    k: int,
)
    requires
        all_plain(nodes),
        0 <= k <= nodes.len(),
    ensures
        program_rest(
            unparse_all(nodes) + seq![TokenView::EOF],
            unparse_all(nodes.take(k)).len(),
            names,
            nodes.take(k),
        ) == Parsed::ok(nodes, unparse_all(nodes).len() + 1, names),
    decreases nodes.len() - k,
{
    let body = unparse_all(nodes);
    let ts = body + seq![TokenView::EOF];
    let pos = unparse_all(nodes.take(k)).len();
    if k == nodes.len() {
        assert(nodes.take(k) =~= nodes);
        assert(ts[pos as int] == TokenView::EOF);
    } else {
        let n = nodes[k];
        let piece = unparse(n) + seq![TokenView::Semicolon];
        lemma_unparse_all_take(nodes, k);
        lemma_occurs_split(body, 0, unparse_all(nodes.take(k)), piece);
        assert(occurs(ts, pos as int, piece)) by {
            assert forall|i: int| 0 <= i < piece.len() implies ts[pos + i] == #[trigger] piece[i] by {
                assert(body[pos + i] == piece[i]);
            }
        }
        lemma_statement_of_unparsed(ts, pos, names, n);
        lemma_unparse_first(n);
        assert(ts[pos as int + 0] == piece[0]);
        assert(piece[0] == unparse(n)[0]);
        assert(!next_is(ts, pos, TokenView::EOF));
        assert(nodes.take(k).push(n) =~= nodes.take(k + 1));
        lemma_program_rest_of_unparsed(nodes, names, k + 1);
    }
}

/// The parser reads the tokens of a sequence of plain trees, closed by the
/// end-of-input marker, as these trees, whatever variables it has met
/// before.
pub proof fn lemma_program_of_unparsed(nodes: Seq<NodeView>, names: Seq<Seq<char>>)
    requires
        all_plain(nodes),
    ensures
        program(unparse_all(nodes) + seq![TokenView::EOF], 0, names) == Parsed::ok(
            nodes,
            unparse_all(nodes).len() + 1,
            names,
        ),
{
    assert(nodes.take(0) =~= Seq::<NodeView>::empty());
    lemma_program_rest_of_unparsed(nodes, names, 0);
}

/// The tokens of two plain trees with `token` between them and a semicolon
/// behind them.
pub open spec fn comparison(l: NodeView, token: TokenView, r: NodeView) -> Seq<TokenView> {
    unparse(l) + seq![token] + unparse(r) + seq![TokenView::Semicolon]
}

/// The parser reads two plain trees with an operator token between them and
/// a semicolon behind them as the statement of the operator applied to the
/// two, in the order that the token asks for.
pub proof fn lemma_statement_of_operation(
    names: Seq<Seq<char>>,
    l: NodeView,
    token: TokenView,
    r: NodeView,
    level: Level,
    op: BinOp,
    swap: bool,
)
    requires
        plain(l),
        plain(r),
        operator_at(level, token) == Some((op, swap)),
        forall|k: Level| k.rank() < level.rank() ==> #[trigger] operator_at(k, token) is None,
    ensures
        statement(comparison(l, token, r), 0, names) == Parsed::ok(
            apply(op, swap, l, r),
            comparison(l, token, r).len(),
            names,
        ),
{
    let ts = comparison(l, token, r);
    let lt = unparse(l);
    let rt = unparse(r);
    let mid = lt.len();
    let end = (mid + 1 + rt.len()) as nat;
    lemma_occurs_prefix(lt + seq![token] + rt, seq![TokenView::Semicolon]);
    lemma_occurs_split(ts, 0, lt + seq![token], rt);
    lemma_occurs_split(ts, 0, lt, seq![token]);
    lemma_unparse_first(l);
    lemma_unparse_first(r);
    assert(seq![token][0] == token);
    assert(seq![TokenView::Semicolon][0] == TokenView::Semicolon);
    assert(ts[0int + 0] == lt[0]);
    assert(ts[mid as int + 0] == seq![token][0]);
    assert(ts[mid as int + 1 + 0] == rt[0]);
    assert(ts[end as int + 0] == seq![TokenView::Semicolon][0]);
    lemma_primary_of_unparsed(ts, 0, names, l);
    lemma_primary_of_unparsed(ts, mid + 1, names, r);
    lemma_closers(ts[end as int]);
    lemma_operation(ts, 0, names, level, op, swap, l, mid, r, end);
    assert(expect(ts, end, names, TokenView::Semicolon) == Parsed::ok((), end + 1, names));
    assert(terminated(ts, 0, names) == Parsed::ok(apply(op, swap, l, r), end + 1, names));
}

/// `a > b` is read as `b < a`, and `a >= b` as `b <= a`: for plain trees
/// `a` and `b` the parser makes the same tree of either form.
pub proof fn lemma_greater_is_less_swapped(names: Seq<Seq<char>>, a: NodeView, b: NodeView)
    requires
        plain(a),
        plain(b),
    ensures
        statement(comparison(a, TokenView::GreaterThan, b), 0, names).result == statement(
            comparison(b, TokenView::LessThan, a),
            0,
            names,
        ).result,
        statement(comparison(a, TokenView::GreaterThan, b), 0, names).result == Ok::<
            NodeView,
            crate::ast::grammar::ParserErrorView,
        >(NodeView::binary(BinOp::Lt, b, a)),
        statement(comparison(a, TokenView::GreaterThanOrEqual, b), 0, names).result == statement(
            comparison(b, TokenView::LessThanOrEqual, a),
            0,
            names,
        ).result,
        statement(comparison(a, TokenView::GreaterThanOrEqual, b), 0, names).result == Ok::<
            NodeView,
            crate::ast::grammar::ParserErrorView,
        >(NodeView::binary(BinOp::Le, b, a)),
{
    let level = Level::Relational;
    lemma_statement_of_operation(names, a, TokenView::GreaterThan, b, level, BinOp::Lt, true);
    lemma_statement_of_operation(names, b, TokenView::LessThan, a, level, BinOp::Lt, false);
    lemma_statement_of_operation(
        names,
        a,
        TokenView::GreaterThanOrEqual,
        b,
        level,
        BinOp::Le,
        true,
    );
    lemma_statement_of_operation(
        names,
        b,
        TokenView::LessThanOrEqual,
        a,
        level,
        BinOp::Le,
        false,
    );
}

} // verus!
