//! From the canonical text back to the trees.
//!
//! The text of an expression without a variable can be read again: the lexer
//! gives the tokens of [`crate::ast::unparse::unparse_all`] for it, and the
//! parser makes the same trees of these tokens. So to print, read and print
//! again gives the first text.
use crate::ast::grammar::program;
use crate::ast::node::{node_text, nodes_text, op_text, BinOp, NodeView};
use crate::ast::unparse::{
    all_plain, group, lemma_occurs_prefix, lemma_occurs_split, lemma_program_of_unparsed, occurs,
    operator_token, plain, unparse, unparse_all,
};
use crate::lexer::{
    digits_end, lemma_prepend_nothing, lemma_prepend_twice, lex, next_token, prepend, punctuation,
    LexError, TokenView,
};
use crate::text::{all_digits, decimal, is_digit_char, is_white_space, lemma_decimal};
use vstd::prelude::*;

verus! {

/// How an operator is written between its operands, character by
/// character.
pub open spec fn operator_chars(op: BinOp) -> Seq<char> {
    match op {
        BinOp::Add => seq![' ', '+', ' '],
        BinOp::Sub => seq![' ', '-', ' '],
        BinOp::Mul => seq![' ', '*', ' '],
        BinOp::Div => seq![' ', '/', ' '],
        BinOp::Lt => seq![' ', '<', ' '],
        BinOp::Le => seq![' ', '<', '=', ' '],
        BinOp::Eq => seq![' ', '=', '=', ' '],
        BinOp::Ne => seq![' ', '!', '=', ' '],
    }
}

/// The pieces of the canonical text of an expression, character by
/// character.
pub proof fn lemma_pieces()
    ensures
        "("@ == seq!['('],
        ")"@ == seq![')'],
        "; "@ == seq![';', ' '],
        " = "@ == seq![' ', '=', ' '],
        forall|op: BinOp| #[trigger] op_text(op) == operator_chars(op),
{
    reveal_strlit("(");
    reveal_strlit(")");
    reveal_strlit("; ");
    reveal_strlit(" = ");
    reveal_strlit(" + ");
    reveal_strlit(" - ");
    reveal_strlit(" * ");
    reveal_strlit(" / ");
    reveal_strlit(" < ");
    reveal_strlit(" <= ");
    reveal_strlit(" == ");
    reveal_strlit(" != ");
    assert("("@ =~= seq!['(']);
    assert(")"@ =~= seq![')']);
    assert("; "@ =~= seq![';', ' ']);
    assert(" = "@ =~= seq![' ', '=', ' ']);
    assert(" + "@ =~= seq![' ', '+', ' ']);
    assert(" - "@ =~= seq![' ', '-', ' ']);
    assert(" * "@ =~= seq![' ', '*', ' ']);
    assert(" / "@ =~= seq![' ', '/', ' ']);
    assert(" < "@ =~= seq![' ', '<', ' ']);
    assert(" <= "@ =~= seq![' ', '<', '=', ' ']);
    assert(" == "@ =~= seq![' ', '=', '=', ' ']);
    assert(" != "@ =~= seq![' ', '!', '=', ' ']);
    assert forall|op: BinOp| #[trigger] op_text(op) == operator_chars(op) by {
        match op {
            BinOp::Add => {},
            BinOp::Sub => {},
            BinOp::Mul => {},
            BinOp::Div => {},
            BinOp::Lt => {},
            BinOp::Le => {},
            BinOp::Eq => {},
            BinOp::Ne => {},
        }
    }
}

/// Whether a number that ends just before index `pos` ends there: the text
/// ends, or no digit follows.
pub open spec fn ends_number(cs: Seq<char>, pos: int) -> bool {
    pos >= cs.len() || !is_digit_char(cs[pos])
}

/// A run of digits that no digit follows is the longest run of digits at its
/// place.
pub proof fn lemma_digits_run(cs: Seq<char>, pos: int, digits: Seq<char>)
    requires
        occurs(cs, pos, digits),
        all_digits(digits),
        ends_number(cs, pos + digits.len()),
    ensures
        digits_end(cs, pos) == pos + digits.len(),
        cs.subrange(pos, pos + digits.len()) == digits,
    decreases digits.len(),
{
    assert(cs.subrange(pos, pos + digits.len()) =~= digits) by {
        assert forall|i: int| 0 <= i < digits.len() implies cs.subrange(pos, pos + digits.len())[i]
            == digits[i] by {
            assert(cs[pos + i] == digits[i]);
        }
    }
    if digits.len() > 0 {
        let rest = digits.drop_first();
        assert(cs[pos + 0] == digits[0]);
        assert(occurs(cs, pos + 1, rest)) by {
            assert forall|i: int| 0 <= i < rest.len() implies cs[pos + 1 + i] == #[trigger] rest[i] by {
                assert(cs[pos + (i + 1)] == digits[i + 1]);
            }
        }
        assert forall|i: int| 0 <= i < rest.len() implies is_digit_char(#[trigger] rest[i]) by {
            assert(rest[i] == digits[i + 1]);
        }
        lemma_digits_run(cs, pos + 1, rest);
    }
}

/// The lexer reads the numeral of a number as the token of that number.
pub proof fn lemma_lex_number(cs: Seq<char>, pos: int, v: u32)
    requires
        occurs(cs, pos, decimal(v as nat)),
        ends_number(cs, pos + decimal(v as nat).len()),
    ensures
        lex(cs, pos) == prepend(
            seq![TokenView::Num(v)],
            lex(cs, pos + decimal(v as nat).len()),
        ),
{
    let digits = decimal(v as nat);
    lemma_decimal(v as nat);
    lemma_digits_run(cs, pos, digits);
    assert(cs[pos + 0] == digits[0]);
    assert(is_digit_char(cs[pos]));
    assert(!is_white_space(cs[pos]));
    let end = pos + digits.len();
    assert(next_token(cs, pos) == Ok::<(TokenView, int), LexError>((TokenView::Num(v), end)));
}

/// The lexer skips a space.
pub proof fn lemma_lex_space(cs: Seq<char>, pos: int)
    requires
        0 <= pos < cs.len(),
        cs[pos] == ' ',
    ensures
        lex(cs, pos) == lex(cs, pos + 1),
{
}

/// The lexer reads a parenthesis or a semicolon as its token.
pub proof fn lemma_lex_mark(cs: Seq<char>, pos: int, token: TokenView)
    requires
        0 <= pos < cs.len(),
        punctuation(cs[pos]) == Some(token),
    ensures
        lex(cs, pos) == prepend(seq![token], lex(cs, pos + 1)),
{
    assert(!is_white_space(cs[pos]));
    assert(!is_digit_char(cs[pos]));
    assert(next_token(cs, pos) == Ok::<(TokenView, int), LexError>((token, pos + 1)));
}

/// The lexer reads an operator between two spaces as the token of the
/// operator.
pub proof fn lemma_lex_operator(cs: Seq<char>, pos: int, op: BinOp)
    requires
        occurs(cs, pos, operator_chars(op)),
    ensures
        lex(cs, pos) == prepend(
            seq![operator_token(op)],
            lex(cs, pos + operator_chars(op).len()),
        ),
{
    let text = operator_chars(op);
    assert(cs[pos + 0] == text[0]);
    assert(cs[pos + 1] == text[1]);
    assert(cs[pos + 2] == text[2]);
    lemma_lex_space(cs, pos);
    let at = pos + 1;
    assert(!is_white_space(cs[at]));
    assert(!is_digit_char(cs[at]));
    match op {
        BinOp::Add | BinOp::Sub | BinOp::Mul | BinOp::Div => {
            assert(next_token(cs, at) == Ok::<(TokenView, int), LexError>(
                (operator_token(op), at + 1),
            ));
            lemma_lex_space(cs, pos + 2);
        },
        BinOp::Lt => {
            assert(next_token(cs, at) == Ok::<(TokenView, int), LexError>(
                (operator_token(op), at + 1),
            ));
            lemma_lex_space(cs, pos + 2);
        },
        BinOp::Le | BinOp::Eq | BinOp::Ne => {
            assert(cs[pos + 3] == text[3]);
            assert(next_token(cs, at) == Ok::<(TokenView, int), LexError>(
                (operator_token(op), at + 2),
            ));
            lemma_lex_space(cs, pos + 3);
        },
    }
}

/// The lexer reads `=` between two spaces as the token of assignment.
pub proof fn lemma_lex_assign(cs: Seq<char>, pos: int)
    requires
        occurs(cs, pos, seq![' ', '=', ' ']),
    ensures
        lex(cs, pos) == prepend(seq![TokenView::Assign], lex(cs, pos + 3)),
{
    let text = seq![' ', '=', ' '];
    assert(cs[pos + 0] == text[0]);
    assert(cs[pos + 1] == text[1]);
    assert(cs[pos + 2] == text[2]);
    lemma_lex_space(cs, pos);
    let at = pos + 1;
    assert(!is_white_space(cs[at]));
    assert(!is_digit_char(cs[at]));
    assert(next_token(cs, at) == Ok::<(TokenView, int), LexError>((TokenView::Assign, at + 1)));
    lemma_lex_space(cs, pos + 2);
}

/// The text of two operands with something between them, in parentheses.
pub open spec fn group_text(l: Seq<char>, mid: Seq<char>, r: Seq<char>) -> Seq<char> {
    seq!['('] + l + mid + r + seq![')']
}

/// The lexer reads a group of which it reads the parts.
pub proof fn lemma_lex_group(
    cs: Seq<char>,
    pos: int,
    l: Seq<char>,
    mid: Seq<char>,
    r: Seq<char>,
    lt: Seq<TokenView>,
    token: TokenView,
    rt: Seq<TokenView>,
)
    requires
        occurs(cs, pos, group_text(l, mid, r)),
        lex(cs, pos + 1) == prepend(lt, lex(cs, pos + 1 + l.len())),
        lex(cs, pos + 1 + l.len()) == prepend(seq![token], lex(cs, pos + 1 + l.len() + mid.len())),
        lex(cs, pos + 1 + l.len() + mid.len()) == prepend(
            rt,
            lex(cs, pos + 1 + l.len() + mid.len() + r.len()),
        ),
    ensures
        lex(cs, pos) == prepend(group(lt, token, rt), lex(cs, pos + group_text(l, mid, r).len())),
        group_text(l, mid, r).len() == l.len() + mid.len() + r.len() + 2,
{
    let open = seq!['('];
    let close = seq![')'];
    lemma_occurs_split(cs, pos, open + l + mid + r, close);
    lemma_occurs_split(cs, pos, open + l + mid, r);
    lemma_occurs_split(cs, pos, open + l, mid);
    lemma_occurs_split(cs, pos, open, l);
    let a = pos + 1 + l.len();
    let b = a + mid.len();
    let c = b + r.len();
    assert(cs[pos + 0] == open[0]);
    assert(cs[c + 0] == close[0]);
    lemma_lex_mark(cs, pos, TokenView::LeftParen);
    lemma_lex_mark(cs, c, TokenView::RightParen);
    let rest = lex(cs, c + 1);
    let s4 = seq![TokenView::RightParen];
    let s0 = seq![TokenView::LeftParen];
    let s2 = seq![token];
    lemma_prepend_twice(rt, s4, rest);
    lemma_prepend_twice(s2, rt + s4, rest);
    lemma_prepend_twice(lt, s2 + (rt + s4), rest);
    lemma_prepend_twice(s0, lt + (s2 + (rt + s4)), rest);
    assert(s0 + (lt + (s2 + (rt + s4))) =~= group(lt, token, rt));
}

/// The text of a plain tree ends with a parenthesis or a digit, and begins
/// with one.
pub proof fn lemma_text_shape(n: NodeView)
    requires
        plain(n),
    ensures
        node_text(n) == match n {
            NodeView::Num(v) => decimal(v as nat),
            NodeView::Assign { l, r } => group_text(
                node_text(*l),
                seq![' ', '=', ' '],
                node_text(*r),
            ),
            NodeView::Binary { op, l, r } => group_text(
                node_text(*l),
                operator_chars(op),
                node_text(*r),
            ),
            _ => node_text(n),
        },
{
    lemma_pieces();
}

/// The lexer reads the canonical text of a plain tree as the tokens of the
/// tree.
pub proof fn lemma_lex_node(cs: Seq<char>, pos: int, n: NodeView)
    requires
        plain(n),
        occurs(cs, pos, node_text(n)),
        ends_number(cs, pos + node_text(n).len()),
    ensures
        lex(cs, pos) == prepend(unparse(n), lex(cs, pos + node_text(n).len())),
    decreases n,
{
    lemma_text_shape(n);
    match n {
        NodeView::Num(v) => {
            lemma_lex_number(cs, pos, v);
        },
        NodeView::Assign { l, r } => {
            let lc = node_text(*l);
            let mid = seq![' ', '=', ' '];
            let rc = node_text(*r);
            let open = seq!['('];
            let close = seq![')'];
            lemma_occurs_split(cs, pos, open + lc + mid + rc, close);
            lemma_occurs_split(cs, pos, open + lc + mid, rc);
            lemma_occurs_split(cs, pos, open + lc, mid);
            lemma_occurs_split(cs, pos, open, lc);
            let a = pos + 1 + lc.len();
            let b = a + mid.len();
            let c = b + rc.len();
            assert(cs[a + 0] == mid[0]);
            assert(cs[c + 0] == close[0]);
            lemma_lex_node(cs, pos + 1, *l);
            lemma_lex_assign(cs, a);
            lemma_lex_node(cs, b, *r);
            lemma_lex_group(cs, pos, lc, mid, rc, unparse(*l), TokenView::Assign, unparse(*r));
        },
        NodeView::Binary { op, l, r } => {
            let lc = node_text(*l);
            let mid = operator_chars(op);
            let rc = node_text(*r);
            let open = seq!['('];
            let close = seq![')'];
            lemma_occurs_split(cs, pos, open + lc + mid + rc, close);
            lemma_occurs_split(cs, pos, open + lc + mid, rc);
            lemma_occurs_split(cs, pos, open + lc, mid);
            lemma_occurs_split(cs, pos, open, lc);
            let a = pos + 1 + lc.len();
            let b = a + mid.len();
            let c = b + rc.len();
            assert(cs[a + 0] == mid[0]);
            assert(cs[c + 0] == close[0]);
            lemma_lex_node(cs, pos + 1, *l);
            lemma_lex_operator(cs, a, op);
            lemma_lex_node(cs, b, *r);
            lemma_lex_group(cs, pos, lc, mid, rc, unparse(*l), operator_token(op), unparse(*r));
        },
        _ => {},
    }
}

/// The lexer reads the canonical text of a sequence of plain trees as the
/// tokens of the trees, each followed by a semicolon.
pub proof fn lemma_lex_nodes(cs: Seq<char>, pos: int, nodes: Seq<NodeView>)
    requires
        all_plain(nodes),
        occurs(cs, pos, nodes_text(nodes)),
    ensures
        lex(cs, pos) == prepend(unparse_all(nodes), lex(cs, pos + nodes_text(nodes).len())),
    decreases nodes.len(),
{
    if nodes.len() == 0 {
        lemma_prepend_nothing(lex(cs, pos));
    } else {
        lemma_pieces();
        let init = nodes.drop_last();
        let n = nodes.last();
        let head = nodes_text(init);
        let body = node_text(n);
        let tail = seq![';', ' '];
        assert(all_plain(init)) by {
            assert forall|i: int| 0 <= i < init.len() implies plain(#[trigger] init[i]) by {
                assert(init[i] == nodes[i]);
            }
        }
        lemma_occurs_split(cs, pos, head + body, tail);
        lemma_occurs_split(cs, pos, head, body);
        let a = pos + head.len();
        let b = a + body.len();
        assert(cs[b + 0] == tail[0]);
        assert(cs[b + 1] == tail[1]);
        lemma_lex_nodes(cs, pos, init);
        lemma_lex_node(cs, a, n);
        lemma_lex_mark(cs, b, TokenView::Semicolon);
        lemma_lex_space(cs, b + 1);
        let rest = lex(cs, b + 2);
        let semi = seq![TokenView::Semicolon];
        lemma_prepend_twice(unparse(n), semi, rest);
        lemma_prepend_twice(unparse_all(init), unparse(n) + semi, rest);
        assert(unparse_all(init) + (unparse(n) + semi) =~= unparse_all(nodes));
    }
}

/// The lexer reads the canonical text of a sequence of plain trees as the
/// tokens of the trees, closed by the end-of-input marker.
pub proof fn lemma_lex_of_text(nodes: Seq<NodeView>)
    requires
        all_plain(nodes),
    ensures
        lex(nodes_text(nodes), 0) == Ok::<Seq<TokenView>, LexError>(
            unparse_all(nodes) + seq![TokenView::EOF],
        ),
{
    let cs = nodes_text(nodes);
    lemma_occurs_prefix(cs, Seq::<char>::empty());
    assert(cs + Seq::<char>::empty() =~= cs);
    lemma_lex_nodes(cs, 0, nodes);
}

/// To print plain trees, read the text again and print what was read gives
/// the first text: the lexer and the parser make the same trees of the text,
/// whatever variables the parser has met before.
pub proof fn lemma_round_trip(nodes: Seq<NodeView>, names: Seq<Seq<char>>)
    requires
        all_plain(nodes),
    ensures
        lex(nodes_text(nodes), 0) is Ok,
        program(lex(nodes_text(nodes), 0)->Ok_0, 0, names).result == Ok::<
            Seq<NodeView>,
            crate::ast::grammar::ParserErrorView,
        >(nodes),
        program(lex(nodes_text(nodes), 0)->Ok_0, 0, names).names == names,
        nodes_text(program(lex(nodes_text(nodes), 0)->Ok_0, 0, names).result->Ok_0) == nodes_text(
            nodes,
        ),
{
    lemma_lex_of_text(nodes);
    lemma_program_of_unparsed(nodes, names);
}

} // verus!
