//! The stack discipline of the generated code.
//!
//! The code of an expression has one push to the evaluation stack more than
//! it has pops from it; the code of a statement has as many of the one as of
//! the other. Since this holds of every part of a statement, each path
//! through a statement leaves the stack as deep as it found it.
use crate::ast::node::{all_proper, clause_proper, is_expression, proper, BinOp, NodeView};
use crate::gen::{
    address_code, all_lowerable, block_code, check_code, clause_code, clause_label_count,
    clause_lowerable, label_count, label_text, labels_in, lowerable, node_code, operator_code,
    statement_code, test_code,
};
use crate::text::decimal;
use vstd::prelude::*;

verus! {

/// What a line does to the depth of the evaluation stack: a push adds one
/// value, a pop into `rax` or `rdi` takes one. The frame base `rbp` is no
/// part of the evaluation stack.
pub open spec fn effect(line: Seq<char>) -> int {
    if "  push "@.is_prefix_of(line) {
        1
    } else if line == "  pop rax"@ || line == "  pop rdi"@ {
        -1
    } else {
        0
    }
}

/// What a sequence of lines does to the depth of the evaluation stack, each
/// line counted once.
pub open spec fn net(lines: Seq<Seq<char>>) -> int
    decreases lines.len(),
{
    if lines.len() == 0 {
        0
    } else {
        net(lines.drop_last()) + effect(lines.last())
    }
}

/// The effects of two sequences of lines add up.
pub broadcast proof fn lemma_net_concat(a: Seq<Seq<char>>, b: Seq<Seq<char>>)
    ensures
        #[trigger] net(a + b) == net(a) + net(b),
    decreases b.len(),
{
    if b.len() == 0 {
        assert(a + b =~= a);
    } else {
        assert((a + b).drop_last() =~= a + b.drop_last());
        assert((a + b).last() == b.last());
        lemma_net_concat(a, b.drop_last());
    }
}

/// The effects of up to four lines.
pub proof fn lemma_net_few(a: Seq<char>, b: Seq<char>, c: Seq<char>, d: Seq<char>)
    ensures
        net(Seq::<Seq<char>>::empty()) == 0,
        net(seq![a]) == effect(a),
        net(seq![a, b]) == effect(a) + effect(b),
        net(seq![a, b, c]) == effect(a) + effect(b) + effect(c),
        net(seq![a, b, c, d]) == effect(a) + effect(b) + effect(c) + effect(d),
{
    assert(seq![a].drop_last() =~= Seq::<Seq<char>>::empty());
    assert(seq![a, b].drop_last() =~= seq![a]);
    assert(seq![a, b, c].drop_last() =~= seq![a, b]);
    assert(seq![a, b, c, d].drop_last() =~= seq![a, b, c]);
    assert(net(Seq::<Seq<char>>::empty()) == 0);
    assert(net(seq![a]) == effect(a));
    assert(net(seq![a, b]) == effect(a) + effect(b));
    assert(net(seq![a, b, c]) == effect(a) + effect(b) + effect(c));
}

/// A line that does not begin with two spaces and a `p` touches no value of
/// the evaluation stack.
pub proof fn lemma_other_line(line: Seq<char>)
    requires
        line.len() >= 3,
        line[0] != ' ' || line[2] != 'p',
    ensures
        effect(line) == 0,
{
    reveal_strlit("  push ");
    reveal_strlit("  pop rax");
    reveal_strlit("  pop rdi");
    if "  push "@.is_prefix_of(line) {
        assert(line[0] == "  push "@[0]);
        assert(line[2] == "  push "@[2]);
    }
}

/// A line that begins like `head`, of three characters or more, and does
/// not begin with two spaces and a `p`, touches no value of the evaluation
/// stack, whatever follows `head`.
pub proof fn lemma_other_head(head: Seq<char>, tail: Seq<char>)
    requires
        head.len() >= 3,
        head[0] != ' ' || head[2] != 'p',
    ensures
        effect(head + tail) == 0,
{
    assert((head + tail)[0] == head[0]);
    assert((head + tail)[2] == head[2]);
    lemma_other_line(head + tail);
}

/// The lines that push and the lines that pop.
pub proof fn lemma_stack_lines()
    ensures
        effect("  push rax"@) == 1,
        effect("  push rdi"@) == 1,
        effect("  pop rax"@) == -1,
        effect("  pop rdi"@) == -1,
        effect("  pop rbp"@) == 0,
        forall|tail: Seq<char>| #[trigger] effect("  push "@ + tail) == 1,
{
    reveal_strlit("  push ");
    reveal_strlit("  push rax");
    reveal_strlit("  push rdi");
    reveal_strlit("  pop rax");
    reveal_strlit("  pop rdi");
    reveal_strlit("  pop rbp");
    let push = "  push "@;
    assert(push.is_prefix_of("  push rax"@)) by {
        assert(push =~= "  push rax"@.subrange(0, 7));
    }
    assert(push.is_prefix_of("  push rdi"@)) by {
        assert(push =~= "  push rdi"@.subrange(0, 7));
    }
    assert(!push.is_prefix_of("  pop rax"@)) by {
        if push.is_prefix_of("  pop rax"@) {
            assert(push[3] == "  pop rax"@[3]);
        }
    }
    assert(!push.is_prefix_of("  pop rdi"@)) by {
        if push.is_prefix_of("  pop rdi"@) {
            assert(push[3] == "  pop rdi"@[3]);
        }
    }
    assert(!push.is_prefix_of("  pop rbp"@)) by {
        if push.is_prefix_of("  pop rbp"@) {
            assert(push[3] == "  pop rbp"@[3]);
        }
    }
    assert("  pop rbp"@ != "  pop rax"@) by {
        assert("  pop rbp"@[7] != "  pop rax"@[7]);
    }
    assert("  pop rbp"@ != "  pop rdi"@) by {
        assert("  pop rbp"@[7] != "  pop rdi"@[7]);
    }
    assert forall|tail: Seq<char>| #[trigger] effect(push + tail) == 1 by {
        assert(push =~= (push + tail).subrange(0, 7));
    }
}

/// The lines that compute an operator touch no value of the evaluation
/// stack.
pub proof fn lemma_operator_lines(op: BinOp)
    ensures
        net(operator_code(op)) == 0,
{
    reveal_strlit("  add rax, rdi");
    reveal_strlit("  sub rax, rdi");
    reveal_strlit("  imul rax, rdi");
    reveal_strlit("  cqo");
    reveal_strlit("  idiv rdi");
    reveal_strlit("  cmp rax, rdi");
    reveal_strlit("  sete al");
    reveal_strlit("  setne al");
    reveal_strlit("  setl al");
    reveal_strlit("  setle al");
    reveal_strlit("  movzb rax, al");
    lemma_other_line("  add rax, rdi"@);
    lemma_other_line("  sub rax, rdi"@);
    lemma_other_line("  imul rax, rdi"@);
    lemma_other_line("  cqo"@);
    lemma_other_line("  idiv rdi"@);
    lemma_other_line("  cmp rax, rdi"@);
    lemma_other_line("  sete al"@);
    lemma_other_line("  setne al"@);
    lemma_other_line("  setl al"@);
    lemma_other_line("  setle al"@);
    lemma_other_line("  movzb rax, al"@);
    let none = Seq::<char>::empty();
    match op {
        BinOp::Add => lemma_net_few("  add rax, rdi"@, none, none, none),
        BinOp::Sub => lemma_net_few("  sub rax, rdi"@, none, none, none),
        BinOp::Mul => lemma_net_few("  imul rax, rdi"@, none, none, none),
        BinOp::Div => lemma_net_few("  cqo"@, "  idiv rdi"@, none, none),
        BinOp::Eq => lemma_net_few("  cmp rax, rdi"@, "  sete al"@, "  movzb rax, al"@, none),
        BinOp::Ne => lemma_net_few("  cmp rax, rdi"@, "  setne al"@, "  movzb rax, al"@, none),
        BinOp::Lt => lemma_net_few("  cmp rax, rdi"@, "  setl al"@, "  movzb rax, al"@, none),
        BinOp::Le => lemma_net_few("  cmp rax, rdi"@, "  setle al"@, "  movzb rax, al"@, none),
    }
}

/// The lines that push the address of a variable push one value.
pub proof fn lemma_address_lines(offset: nat)
    ensures
        net(address_code(offset)) == 1,
{
    reveal_strlit("  mov rax, rbp");
    reveal_strlit("  sub rax, ");
    lemma_stack_lines();
    lemma_other_line("  mov rax, rbp"@);
    lemma_other_head("  sub rax, "@, decimal(offset));
    lemma_net_few(
        "  mov rax, rbp"@,
        "  sub rax, "@ + decimal(offset),
        "  push rax"@,
        Seq::empty(),
    );
}

/// The lines that test a condition pop one value.
pub proof fn lemma_test_lines(target: Seq<char>, label: Seq<char>)
    ensures
        net(test_code(target, label)) == -1,
{
    reveal_strlit("  cmp rax, 0");
    reveal_strlit("  je  ");
    lemma_stack_lines();
    lemma_other_line("  cmp rax, 0"@);
    let jump = "  je  "@ + target + label;
    assert(jump[0] == "  je  "@[0]);
    assert(jump[2] == "  je  "@[2]);
    lemma_other_line(jump);
    lemma_net_few("  pop rax"@, "  cmp rax, 0"@, jump, Seq::empty());
}

/// The lines that name a label or jump to one touch no value of the
/// evaluation stack.
pub proof fn lemma_label_lines(label: Seq<char>)
    ensures
        effect(".Lbegin"@ + label + ":"@) == 0,
        effect(".Lend"@ + label + ":"@) == 0,
        effect(".Lelse"@ + label + ":"@) == 0,
        effect("  jmp .Lbegin"@ + label) == 0,
        effect("  jmp .Lend"@ + label) == 0,
{
    reveal_strlit(".Lbegin");
    reveal_strlit(".Lend");
    reveal_strlit(".Lelse");
    reveal_strlit("  jmp .Lbegin");
    reveal_strlit("  jmp .Lend");
    let begin = ".Lbegin"@ + label + ":"@;
    let end = ".Lend"@ + label + ":"@;
    let els = ".Lelse"@ + label + ":"@;
    assert(begin[0] == ".Lbegin"@[0]);
    assert(end[0] == ".Lend"@[0]);
    assert(els[0] == ".Lelse"@[0]);
    lemma_other_line(begin);
    lemma_other_line(end);
    lemma_other_line(els);
    lemma_other_head("  jmp .Lbegin"@, label);
    lemma_other_head("  jmp .Lend"@, label);
}

/// The lines that end an evaluation touch the evaluation stack as they
/// say.
pub proof fn lemma_closing_lines()
    ensures
        net(seq!["  pop rax"@, "  mov rax, [rax]"@, "  push rax"@]) == 0,
        net(seq!["  pop rdi"@, "  pop rax"@, "  mov [rax], rdi"@, "  push rdi"@]) == -1,
        net(seq!["  pop rdi"@, "  pop rax"@]) == -2,
        net(seq!["  push rax"@]) == 1,
        net(seq!["  pop rax"@]) == -1,
        net(seq!["  pop rax"@, "  mov rsp, rbp"@, "  pop rbp"@, "  ret"@]) == -1,
{
    reveal_strlit("  mov rax, [rax]");
    reveal_strlit("  mov [rax], rdi");
    reveal_strlit("  mov rsp, rbp");
    reveal_strlit("  ret");
    lemma_stack_lines();
    lemma_other_line("  mov rax, [rax]"@);
    lemma_other_line("  mov [rax], rdi"@);
    lemma_other_line("  mov rsp, rbp"@);
    lemma_other_line("  ret"@);
    let none = Seq::<char>::empty();
    lemma_net_few("  pop rax"@, "  mov rax, [rax]"@, "  push rax"@, none);
    lemma_net_few("  pop rdi"@, "  pop rax"@, "  mov [rax], rdi"@, "  push rdi"@);
    lemma_net_few("  push rax"@, none, none, none);
    lemma_net_few("  pop rax"@, "  mov rsp, rbp"@, "  pop rbp"@, "  ret"@);
}

/// The code of a proper expression that can be lowered pushes one value
/// more than it pops; the code of such a statement pushes as many values as
/// it pops. In the place of a statement the code of either is level.
pub proof fn lemma_balance(n: NodeView, k: nat)
    requires
        proper(n),
        lowerable(n),
    ensures
        net(node_code(n, k)) == if is_expression(n) {
            1int
        } else {
            0int
        },
        net(statement_code(n, k)) == 0,
    decreases n, 1nat,
{
    broadcast use lemma_net_concat;

    lemma_closing_lines();
    match n {
        NodeView::Num(v) => {
            lemma_stack_lines();
            lemma_net_few(
                "  push "@ + decimal(v as nat),
                Seq::empty(),
                Seq::empty(),
                Seq::empty(),
            );
        },
        NodeView::Lvar { ident, offset } => {
            lemma_address_lines(offset);
        },
        NodeView::Assign { l, r } => {
            lemma_address_lines(l->offset);
            lemma_balance(*r, k);
        },
        NodeView::Binary { op, l, r } => {
            lemma_operator_lines(op);
            lemma_balance(*l, k);
            lemma_balance(*r, k + label_count(*l));
        },
        NodeView::Return { expr } => {
            lemma_balance(*expr, k);
        },
        NodeView::If { cond, then, els } => {
            let label = label_text(k);
            let k_then = k + 1 + label_count(*cond);
            lemma_label_lines(label);
            lemma_test_lines(".Lend"@, label);
            lemma_test_lines(".Lelse"@, label);
            lemma_balance(*cond, k + 1);
            lemma_balance(*then, k_then);
            lemma_net_few(".Lend"@ + label + ":"@, Seq::empty(), Seq::empty(), Seq::empty());
            assert(clause_proper(els));
            assert(clause_lowerable(els));
            match els {
                Some(e) => {
                    lemma_balance(*e, k_then + label_count(*then));
                    lemma_net_few(
                        "  jmp .Lend"@ + label,
                        ".Lelse"@ + label + ":"@,
                        Seq::empty(),
                        Seq::empty(),
                    );
                },
                None => {},
            }
        },
        NodeView::While { cond, then } => {
            let label = label_text(k);
            lemma_label_lines(label);
            lemma_test_lines(".Lend"@, label);
            lemma_balance(*cond, k + 1);
            lemma_balance(*then, k + 1 + label_count(*cond));
            lemma_net_few(".Lbegin"@ + label + ":"@, Seq::empty(), Seq::empty(), Seq::empty());
            lemma_net_few(
                "  jmp .Lbegin"@ + label,
                ".Lend"@ + label + ":"@,
                Seq::empty(),
                Seq::empty(),
            );
        },
        NodeView::For { init, cond, step, then } => {
            let k_loop = k + clause_label_count(init);
            let label = label_text(k_loop);
            let k_then = k_loop + 1 + clause_label_count(cond);
            lemma_label_lines(label);
            lemma_clause_balance(init, k);
            lemma_check_balance(cond, k_loop + 1, label);
            lemma_balance(*then, k_then);
            lemma_clause_balance(step, k_then + label_count(*then));
            lemma_net_few(".Lbegin"@ + label + ":"@, Seq::empty(), Seq::empty(), Seq::empty());
            lemma_net_few(
                "  jmp .Lbegin"@ + label,
                ".Lend"@ + label + ":"@,
                Seq::empty(),
                Seq::empty(),
            );
        },
        NodeView::Block { stmts } => {
            lemma_block_balance(stmts, k);
        },
    }
}

/// The code of a proper clause that can be lowered and is evaluated for its
/// effect is level.
pub proof fn lemma_clause_balance(clause: Option<Box<NodeView>>, k: nat)
    requires
        clause_proper(clause),
        clause_lowerable(clause),
    ensures
        net(clause_code(clause, k)) == 0,
    decreases clause, 0nat,
{
    match clause {
        Some(e) => {
            lemma_balance(*e, k);
        },
        None => {},
    }
}

/// The check of a proper condition of a `for` statement that can be
/// lowered is level.
pub proof fn lemma_check_balance(cond: Option<Box<NodeView>>, k: nat, label: Seq<char>)
    requires
        clause_proper(cond),
        clause_lowerable(cond),
        cond matches Some(c) ==> is_expression(*c),
    ensures
        net(check_code(cond, k, label)) == 0,
    decreases cond, 0nat,
{
    broadcast use lemma_net_concat;

    match cond {
        Some(c) => {
            lemma_balance(*c, k);
            lemma_test_lines(".Lend"@, label);
        },
        None => {},
    }
}

/// The code of a sequence of proper statements that can be lowered is
/// level.
pub proof fn lemma_block_balance(nodes: Seq<NodeView>, k: nat)
    requires
        all_proper(nodes),
        all_lowerable(nodes),
    ensures
        net(block_code(nodes, k)) == 0,
    decreases nodes, 0nat,
{
    broadcast use lemma_net_concat;

    if nodes.len() > 0 {
        let init = nodes.drop_last();
        assert(all_proper(init)) by {
            assert forall|i: int| 0 <= i < init.len() implies proper(#[trigger] init[i]) by {
                assert(init[i] == nodes[i]);
            }
        }
        lemma_block_balance(init, k);
        lemma_balance(nodes.last(), k + labels_in(init));
    }
}

} // verus!
