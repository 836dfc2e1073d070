//! No label is set twice.
//!
//! Every `if`, `while` and `for` takes the next index of the label counter
//! for the labels that it sets. The code of a tree whose first free index is
//! `k` sets labels with the indices from `k` up to, and not including,
//! `k + label_count`, each one at most once, so jumps never meet a label of
//! another construct.
use crate::ast::node::{BinOp, NodeView};
use crate::gen::{
    address_code, block_code, check_code, clause_code, clause_label_count, for_lines, label_count,
    label_text, labels_in, lemma_label_text_injective, node_code, operator_code, statement_code,
    target_code, test_code,
};
use crate::text::decimal;
use vstd::prelude::*;

verus! {

/// Whether `head` is one of the three words that a label begins with.
pub open spec fn is_head(head: Seq<char>) -> bool {
    head == ".Lbegin"@ || head == ".Lend"@ || head == ".Lelse"@
}

/// The line that sets the label made of `head` and the index `j`.
pub open spec fn label_line(head: Seq<char>, j: nat) -> Seq<char> {
    head + label_text(j) + ":"@
}

/// How often `line` stands among `lines`.
pub open spec fn occurrences(lines: Seq<Seq<char>>, line: Seq<char>) -> nat
    decreases lines.len(),
{
    if lines.len() == 0 {
        0
    } else {
        occurrences(lines.drop_last(), line) + if lines.last() == line {
            1nat
        } else {
            0nat
        }
    }
}

/// The occurrences in two sequences of lines add up.
pub broadcast proof fn lemma_occurrences_concat(
    a: Seq<Seq<char>>,
    b: Seq<Seq<char>>,
    line: Seq<char>,
)
    ensures
        #[trigger] occurrences(a + b, line) == occurrences(a, line) + occurrences(b, line),
    decreases b.len(),
{
    if b.len() == 0 {
        assert(a + b =~= a);
    } else {
        assert((a + b).drop_last() =~= a + b.drop_last());
        assert((a + b).last() == b.last());
        lemma_occurrences_concat(a, b.drop_last(), line);
    }
}

/// Whether a line begins with a space, as every line of an instruction
/// does. A line that sets a label begins with a dot.
pub open spec fn indented(line: Seq<char>) -> bool {
    line.len() > 0 && line[0] == ' '
}

/// The occurrences of a line that is not indented among up to four lines
/// that are: none.
pub proof fn lemma_none_among_indented(
    a: Seq<char>,
    b: Seq<char>,
    c: Seq<char>,
    d: Seq<char>,
    line: Seq<char>,
)
    requires
        indented(a),
        indented(b),
        indented(c),
        indented(d),
        !indented(line),
    ensures
        occurrences(Seq::<Seq<char>>::empty(), line) == 0,
        occurrences(seq![a], line) == 0,
        occurrences(seq![a, b], line) == 0,
        occurrences(seq![a, b, c], line) == 0,
        occurrences(seq![a, b, c, d], line) == 0,
{
    assert(seq![a].drop_last() =~= Seq::<Seq<char>>::empty());
    assert(seq![a, b].drop_last() =~= seq![a]);
    assert(seq![a, b, c].drop_last() =~= seq![a, b]);
    assert(seq![a, b, c, d].drop_last() =~= seq![a, b, c]);
    assert(occurrences(Seq::<Seq<char>>::empty(), line) == 0);
    assert(occurrences(seq![a], line) == 0);
    assert(occurrences(seq![a, b], line) == 0);
    assert(occurrences(seq![a, b, c], line) == 0);
}

/// The occurrences of a line in one line and in two.
pub proof fn lemma_occurrences_few(a: Seq<char>, b: Seq<char>, line: Seq<char>)
    ensures
        occurrences(seq![a], line) == if a == line {
            1nat
        } else {
            0nat
        },
        occurrences(seq![a, b], line) == (if a == line {
            1nat
        } else {
            0nat
        }) + (if b == line {
            1nat
        } else {
            0nat
        }),
{
    assert(seq![a].drop_last() =~= Seq::<Seq<char>>::empty());
    assert(seq![a, b].drop_last() =~= seq![a]);
    assert(occurrences(Seq::<Seq<char>>::empty(), line) == 0);
    assert(occurrences(seq![a], line) == if a == line {
        1nat
    } else {
        0nat
    });
}

/// A line that sets a label begins with a dot.
pub proof fn lemma_label_line_shape(head: Seq<char>, j: nat)
    requires
        is_head(head),
    ensures
        !indented(label_line(head, j)),
{
    reveal_strlit(".Lbegin");
    reveal_strlit(".Lend");
    reveal_strlit(".Lelse");
    assert(label_line(head, j)[0] == head[0]);
}

/// Two lines that set a label are the same line only if they begin with the
/// same word and have the same index.
pub proof fn lemma_label_line_injective(h1: Seq<char>, j1: nat, h2: Seq<char>, j2: nat)
    requires
        is_head(h1),
        is_head(h2),
        label_line(h1, j1) == label_line(h2, j2),
    ensures
        h1 == h2,
        j1 == j2,
{
    reveal_strlit(".Lbegin");
    reveal_strlit(".Lend");
    reveal_strlit(".Lelse");
    reveal_strlit(":");
    let x1 = label_line(h1, j1);
    let x2 = label_line(h2, j2);
    assert(x1[2] == h1[2]);
    assert(x2[2] == h2[2]);
    assert(x1[3] == h1[3]);
    assert(x2[3] == h2[3]);
    assert(h1 == h2);
    let from = h1.len() as int;
    let t1 = label_text(j1);
    let t2 = label_text(j2);
    assert(x1.subrange(from, from + t1.len()) =~= t1);
    assert(x2.subrange(from, from + t2.len()) =~= t2);
    assert(x1.len() == h1.len() + t1.len() + 1);
    assert(x2.len() == h2.len() + t2.len() + 1);
    lemma_label_text_injective(j1, j2);
}

/// The lines that compute an operator set no label.
pub proof fn lemma_operator_sets_none(op: BinOp, line: Seq<char>)
    requires
        !indented(line),
    ensures
        occurrences(operator_code(op), line) == 0,
{
    reveal_strlit("  add rax, rdi");
    reveal_strlit("  sub rax, rdi");
    reveal_strlit("  imul rax, rdi");
    reveal_strlit("  cqo");
    reveal_strlit("  idiv rdi");
    reveal_strlit("  cmp rax, rdi");
    reveal_strlit("  sete al");
    reveal_strlit("  setne al");
    reveal_strlit("  setl al");
    reveal_strlit("  setle al");
    reveal_strlit("  movzb rax, al");
    let cmp = "  cmp rax, rdi"@;
    let ext = "  movzb rax, al"@;
    match op {
        BinOp::Add => lemma_none_among_indented("  add rax, rdi"@, cmp, cmp, cmp, line),
        BinOp::Sub => lemma_none_among_indented("  sub rax, rdi"@, cmp, cmp, cmp, line),
        BinOp::Mul => lemma_none_among_indented("  imul rax, rdi"@, cmp, cmp, cmp, line),
        BinOp::Div => lemma_none_among_indented("  cqo"@, "  idiv rdi"@, cmp, cmp, line),
        BinOp::Eq => lemma_none_among_indented(cmp, "  sete al"@, ext, cmp, line),
        BinOp::Ne => lemma_none_among_indented(cmp, "  setne al"@, ext, cmp, line),
        BinOp::Lt => lemma_none_among_indented(cmp, "  setl al"@, ext, cmp, line),
        BinOp::Le => lemma_none_among_indented(cmp, "  setle al"@, ext, cmp, line),
    }
}

/// The lines that push an address, that test a condition and that end an
/// evaluation set no label.
pub proof fn lemma_plain_lines_set_none(line: Seq<char>)
    requires
        !indented(line),
    ensures
        forall|offset: nat| #[trigger] occurrences(address_code(offset), line) == 0,
        forall|target: Seq<char>, label: Seq<char>| #[trigger]
            occurrences(test_code(target, label), line) == 0,
        forall|tail: Seq<char>| #[trigger] occurrences(seq!["  push "@ + tail], line) == 0,
        occurrences(seq!["  pop rax"@, "  mov rax, [rax]"@, "  push rax"@], line) == 0,
        occurrences(seq!["  pop rdi"@, "  pop rax"@, "  mov [rax], rdi"@, "  push rdi"@], line)
            == 0,
        occurrences(seq!["  pop rdi"@, "  pop rax"@], line) == 0,
        occurrences(seq!["  push rax"@], line) == 0,
        occurrences(seq!["  pop rax"@], line) == 0,
        occurrences(seq!["  pop rax"@, "  mov rsp, rbp"@, "  pop rbp"@, "  ret"@], line) == 0,
{
    reveal_strlit("  mov rax, rbp");
    reveal_strlit("  sub rax, ");
    reveal_strlit("  push rax");
    reveal_strlit("  push rdi");
    reveal_strlit("  push ");
    reveal_strlit("  pop rax");
    reveal_strlit("  pop rdi");
    reveal_strlit("  pop rbp");
    reveal_strlit("  cmp rax, 0");
    reveal_strlit("  je  ");
    reveal_strlit("  mov rax, [rax]");
    reveal_strlit("  mov [rax], rdi");
    reveal_strlit("  mov rsp, rbp");
    reveal_strlit("  ret");
    let pop = "  pop rax"@;
    assert forall|offset: nat| #[trigger] occurrences(address_code(offset), line) == 0 by {
        let sub = "  sub rax, "@ + decimal(offset);
        assert(sub[0] == "  sub rax, "@[0]);
        lemma_none_among_indented("  mov rax, rbp"@, sub, "  push rax"@, pop, line);
    }
    assert forall|target: Seq<char>, label: Seq<char>| #[trigger]
        occurrences(test_code(target, label), line) == 0 by {
        let jump = "  je  "@ + target + label;
        assert(jump[0] == "  je  "@[0]);
        lemma_none_among_indented(pop, "  cmp rax, 0"@, jump, pop, line);
    }
    assert forall|tail: Seq<char>| #[trigger] occurrences(seq!["  push "@ + tail], line)
        == 0 by {
        let push = "  push "@ + tail;
        assert(push[0] == "  push "@[0]);
        lemma_none_among_indented(push, pop, pop, pop, line);
    }
    lemma_none_among_indented(pop, "  mov rax, [rax]"@, "  push rax"@, pop, line);
    lemma_none_among_indented("  pop rdi"@, pop, "  mov [rax], rdi"@, "  push rdi"@, line);
    lemma_none_among_indented("  push rax"@, pop, pop, pop, line);
    lemma_none_among_indented(pop, "  mov rsp, rbp"@, "  pop rbp"@, "  ret"@, line);
}

/// Whether the label with the index `j` may be set by code whose labels go
/// from `k` up to `k + count`.
pub open spec fn in_range(j: nat, k: nat, count: nat) -> bool {
    k <= j < k + count
}

/// Whether `line` stands at most once among `lines`, and not at all unless
/// `inside` holds.
pub open spec fn once(lines: Seq<Seq<char>>, line: Seq<char>, inside: bool) -> bool {
    occurrences(lines, line) <= 1 && (!inside ==> occurrences(lines, line) == 0)
}

/// How often the line of the label `head` with the index `j` is the line
/// that sets the label `own` with the index `k`: once if they are the same
/// label, else never.
pub proof fn lemma_own_label(head: Seq<char>, j: nat, own: Seq<char>, k: nat)
    requires
        is_head(head),
        is_head(own),
    ensures
        (own + label_text(k) + ":"@ == label_line(head, j)) <==> (own == head && k == j),
{
    if own + label_text(k) + ":"@ == label_line(head, j) {
        lemma_label_line_injective(own, k, head, j);
    }
}

/// The three words that a label begins with are three.
pub proof fn lemma_heads_differ()
    ensures
        ".Lbegin"@ != ".Lend"@,
        ".Lbegin"@ != ".Lelse"@,
        ".Lend"@ != ".Lelse"@,
{
    reveal_strlit(".Lbegin");
    reveal_strlit(".Lend");
    reveal_strlit(".Lelse");
    assert(".Lbegin"@.len() != ".Lend"@.len());
    assert(".Lbegin"@.len() != ".Lelse"@.len());
    assert(".Lend"@.len() != ".Lelse"@.len());
}

/// A jump to a label sets no label.
pub proof fn lemma_jump_sets_none(label: Seq<char>, line: Seq<char>)
    requires
        !indented(line),
    ensures
        "  jmp .Lbegin"@ + label != line,
        "  jmp .Lend"@ + label != line,
{
    reveal_strlit("  jmp .Lbegin");
    reveal_strlit("  jmp .Lend");
    assert(("  jmp .Lbegin"@ + label)[0] == "  jmp .Lbegin"@[0]);
    assert(("  jmp .Lend"@ + label)[0] == "  jmp .Lend"@[0]);
}

/// The code of a tree sets each label at most once, and only labels with an
/// index that the tree takes.
pub proof fn lemma_labels_once(n: NodeView, k: nat, head: Seq<char>, j: nat)
    requires
        is_head(head),
    ensures
        once(node_code(n, k), label_line(head, j), in_range(j, k, label_count(n))),
        once(statement_code(n, k), label_line(head, j), in_range(j, k, label_count(n))),
    decreases n, 1nat,
{
    broadcast use lemma_occurrences_concat;

    let line = label_line(head, j);
    lemma_label_line_shape(head, j);
    lemma_plain_lines_set_none(line);
    lemma_heads_differ();
    match n {
        NodeView::Num(v) => {},
        NodeView::Lvar { ident, offset } => {},
        NodeView::Assign { l, r } => {
            assert(occurrences(target_code(*l), line) == 0) by {
                if !(*l is Lvar) {
                    assert(target_code(*l) =~= Seq::<Seq<char>>::empty());
                }
            }
            lemma_labels_once(*r, k, head, j);
        },
        NodeView::Binary { op, l, r } => {
            lemma_operator_sets_none(op, line);
            lemma_labels_once(*l, k, head, j);
            lemma_labels_once(*r, k + label_count(*l), head, j);
        },
        NodeView::Return { expr } => {
            lemma_labels_once(*expr, k, head, j);
        },
        NodeView::If { cond, then, els } => {
            let label = label_text(k);
            let k_then = k + 1 + label_count(*cond);
            let end = ".Lend"@ + label + ":"@;
            let c1 = node_code(*cond, k + 1);
            let c3 = statement_code(*then, k_then);
            let c5 = seq![end];
            lemma_labels_once(*cond, k + 1, head, j);
            lemma_labels_once(*then, k_then, head, j);
            lemma_own_label(head, j, ".Lend"@, k);
            lemma_own_label(head, j, ".Lelse"@, k);
            lemma_jump_sets_none(label, line);
            lemma_occurrences_few(end, end, line);
            match els {
                Some(e) => {
                    let c2 = test_code(".Lelse"@, label);
                    let c4 = seq!["  jmp .Lend"@ + label, ".Lelse"@ + label + ":"@];
                    let c6 = statement_code(*e, k_then + label_count(*then));
                    lemma_labels_once(*e, k_then + label_count(*then), head, j);
                    lemma_occurrences_few(
                        "  jmp .Lend"@ + label,
                        ".Lelse"@ + label + ":"@,
                        line,
                    );
                    assert(node_code(n, k) == c1 + c2 + c3 + c4 + c6 + c5);
                    assert(occurrences(c2, line) == 0);
                    assert(occurrences(c4, line) + occurrences(c5, line) <= 1);
                    assert(occurrences(c4, line) + occurrences(c5, line) == 1 ==> j == k);
                    assert(clause_label_count(els) == label_count(*e));
                    assert(occurrences(c1 + c2 + c3 + c4 + c6 + c5, line) == occurrences(c1, line)
                        + occurrences(c2, line) + occurrences(c3, line) + occurrences(c4, line)
                        + occurrences(c6, line) + occurrences(c5, line));
                },
                None => {
                    let c2 = test_code(".Lend"@, label);
                    assert(node_code(n, k) == c1 + c2 + c3 + c5);
                    assert(occurrences(c2, line) == 0);
                    assert(occurrences(c5, line) == 1 ==> j == k);
                },
            }
        },
        NodeView::While { cond, then } => {
            let label = label_text(k);
            let c1 = seq![".Lbegin"@ + label + ":"@];
            let c2 = node_code(*cond, k + 1);
            let c3 = test_code(".Lend"@, label);
            let c4 = statement_code(*then, k + 1 + label_count(*cond));
            let c5 = seq!["  jmp .Lbegin"@ + label, ".Lend"@ + label + ":"@];
            lemma_labels_once(*cond, k + 1, head, j);
            lemma_labels_once(*then, k + 1 + label_count(*cond), head, j);
            lemma_own_label(head, j, ".Lbegin"@, k);
            lemma_own_label(head, j, ".Lend"@, k);
            lemma_jump_sets_none(label, line);
            lemma_occurrences_few(".Lbegin"@ + label + ":"@, ".Lbegin"@ + label + ":"@, line);
            lemma_occurrences_few("  jmp .Lbegin"@ + label, ".Lend"@ + label + ":"@, line);
            assert(node_code(n, k) == c1 + c2 + c3 + c4 + c5);
            assert(occurrences(c3, line) == 0);
            assert(occurrences(c1, line) + occurrences(c5, line) <= 1);
            assert(occurrences(c1, line) + occurrences(c5, line) == 1 ==> j == k);
        },
        NodeView::For { init, cond, step, then } => {
            let k_loop = k + clause_label_count(init);
            let label = label_text(k_loop);
            let k_then = k_loop + 1 + clause_label_count(cond);
            let c0 = clause_code(init, k);
            let c1 = seq![".Lbegin"@ + label + ":"@];
            let c2 = check_code(cond, k_loop + 1, label);
            let c3 = statement_code(*then, k_then);
            let c4 = clause_code(step, k_then + label_count(*then));
            let c5 = seq!["  jmp .Lbegin"@ + label, ".Lend"@ + label + ":"@];
            lemma_clause_labels_once(init, k, head, j);
            lemma_check_labels_once(cond, k_loop + 1, label, head, j);
            lemma_labels_once(*then, k_then, head, j);
            lemma_clause_labels_once(step, k_then + label_count(*then), head, j);
            lemma_own_label(head, j, ".Lbegin"@, k_loop);
            lemma_own_label(head, j, ".Lend"@, k_loop);
            lemma_jump_sets_none(label, line);
            lemma_occurrences_few(".Lbegin"@ + label + ":"@, ".Lbegin"@ + label + ":"@, line);
            lemma_occurrences_few("  jmp .Lbegin"@ + label, ".Lend"@ + label + ":"@, line);
            assert(node_code(n, k) == for_lines(c0, c2, c3, c4, label));
            assert(node_code(n, k) == c0 + c1 + c2 + c3 + c4 + c5);
            assert(occurrences(c1, line) + occurrences(c5, line) <= 1);
            assert(occurrences(c1, line) + occurrences(c5, line) == 1 ==> j == k_loop);
        },
        NodeView::Block { stmts } => {
            lemma_block_labels_once(stmts, k, head, j);
        },
    }
}

/// The code of a clause sets each label at most once, and only labels with
/// an index that the clause takes.
pub proof fn lemma_clause_labels_once(
    clause: Option<Box<NodeView>>,
    k: nat,
    head: Seq<char>,
    j: nat,
)
    requires
        is_head(head),
    ensures
        once(clause_code(clause, k), label_line(head, j), in_range(j, k, clause_label_count(clause))),
    decreases clause, 0nat,
{
    match clause {
        Some(e) => {
            lemma_labels_once(*e, k, head, j);
        },
        None => {},
    }
}

/// The check of a condition of a `for` statement sets each label at most
/// once, and only labels with an index that the condition takes.
pub proof fn lemma_check_labels_once(
    cond: Option<Box<NodeView>>,
    k: nat,
    label: Seq<char>,
    head: Seq<char>,
    j: nat,
)
    requires
        is_head(head),
    ensures
        once(
            check_code(cond, k, label),
            label_line(head, j),
            in_range(j, k, clause_label_count(cond)),
        ),
    decreases cond, 0nat,
{
    broadcast use lemma_occurrences_concat;

    lemma_label_line_shape(head, j);
    lemma_plain_lines_set_none(label_line(head, j));
    match cond {
        Some(c) => {
            lemma_labels_once(*c, k, head, j);
        },
        None => {},
    }
}

/// The code of a sequence of statements sets each label at most once, and
/// only labels with an index that the statements take.
pub proof fn lemma_block_labels_once(nodes: Seq<NodeView>, k: nat, head: Seq<char>, j: nat)
    requires
        is_head(head),
    ensures
        once(block_code(nodes, k), label_line(head, j), in_range(j, k, labels_in(nodes))),
    decreases nodes, 0nat,
{
    broadcast use lemma_occurrences_concat;

    if nodes.len() > 0 {
        lemma_block_labels_once(nodes.drop_last(), k, head, j);
        lemma_labels_once(nodes.last(), k + labels_in(nodes.drop_last()), head, j);
    }
}

} // verus!
