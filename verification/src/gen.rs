//! Code generation: from trees to the lines of an assembly text for a stack
//! machine.
//!
//! The code of an expression leaves one value on the run-time stack. The code
//! of a statement leaves the stack as it found it: where a statement is an
//! expression, its value is popped. [`node_code`] and [`statement_code`] say
//! which lines stand for a tree; [`AsmCodeGen`] writes them.
use crate::ast::node::{clause_view, lemma_block_view, node_views, BinOp, Node, NodeView, Nodes};
use crate::ast::symbols::slot_offset;
use crate::text::{
    decimal, lemma_lines_assoc, lemma_lines_empty, lemma_decimal_injective, lemma_lines_push,
    push_decimal,
};
use vstd::prelude::*;
use vstd::string::StringExecFns;

verus! {

/// Why a program has no code.
#[derive(Debug, Clone, Copy, PartialEq, Eq, Structural)]
pub enum GenError {
    /// The left side of an assignment is no variable.
    InvalidAssignmentTarget,
    /// The program needs more labels than the label counter can count.
    TooManyLabels,
}

/// The size of the frame that the prologue reserves, in bytes.
pub const FRAME_SIZE: usize = 208;

/// The most variables that the frame has room for. The slots of further
/// variables lie below the frame, where the evaluation stack grows.
pub const MAX_LOCALS: usize = 26;

/// The slot of a variable lies inside the frame if and only if the variable
/// is among the first [`MAX_LOCALS`] to appear.
pub proof fn lemma_frame_holds(index: nat)
    ensures
        slot_offset(index) <= FRAME_SIZE <==> index < MAX_LOCALS,
{
}

/// The name of the label with the index `k`.
pub open spec fn label_text(k: nat) -> Seq<char> {
    ".L"@ + decimal(k)
}

/// Labels with different indices have different names. The generator hands
/// out each index once, so no two constructs share a label.
pub proof fn lemma_label_text_injective(a: nat, b: nat)
    requires
        label_text(a) == label_text(b),
    ensures
        a == b,
{
    let head = ".L"@;
    assert(decimal(a) =~= label_text(a).subrange(head.len() as int, label_text(a).len() as int));
    assert(decimal(b) =~= label_text(b).subrange(head.len() as int, label_text(b).len() as int));
    lemma_decimal_injective(a, b);
}

/// How many labels the code of a tree takes: one for each `if`, `while` and
/// `for` in it.
pub open spec fn label_count(n: NodeView) -> nat
    decreases n,
{
    match n {
        NodeView::Num(_) => 0,
        NodeView::Lvar { .. } => 0,
        NodeView::Assign { l, r } => label_count(*r),
        NodeView::Binary { op, l, r } => label_count(*l) + label_count(*r),
        NodeView::Return { expr } => label_count(*expr),
        NodeView::If { cond, then, els } => 1 + label_count(*cond) + label_count(*then)
            + clause_label_count(els),
        NodeView::While { cond, then } => 1 + label_count(*cond) + label_count(*then),
        NodeView::For { init, cond, step, then } => clause_label_count(init) + 1
            + clause_label_count(cond) + label_count(*then) + clause_label_count(step),
        NodeView::Block { stmts } => labels_in(stmts),
    }
}

/// The labels of a clause that may be absent.
pub open spec fn clause_label_count(clause: Option<Box<NodeView>>) -> nat
    decreases clause,
{
    match clause {
        Some(e) => label_count(*e),
        None => 0,
    }
}

/// The labels of a sequence of trees.
pub open spec fn labels_in(nodes: Seq<NodeView>) -> nat
    decreases nodes,
{
    if nodes.len() == 0 {
        0
    } else {
        labels_in(nodes.drop_last()) + label_count(nodes.last())
    }
}

/// Whether a tree can be lowered: the left side of every assignment in it is
/// a variable.
pub open spec fn lowerable(n: NodeView) -> bool
    decreases n,
{
    match n {
        NodeView::Num(_) => true,
        NodeView::Lvar { .. } => true,
        NodeView::Assign { l, r } => *l is Lvar && lowerable(*r),
        NodeView::Binary { op, l, r } => lowerable(*l) && lowerable(*r),
        NodeView::Return { expr } => lowerable(*expr),
        NodeView::If { cond, then, els } => lowerable(*cond) && lowerable(*then)
            && clause_lowerable(els),
        NodeView::While { cond, then } => lowerable(*cond) && lowerable(*then),
        NodeView::For { init, cond, step, then } => clause_lowerable(init) && clause_lowerable(
            cond,
        ) && clause_lowerable(step) && lowerable(*then),
        NodeView::Block { stmts } => all_lowerable(stmts),
    }
}

/// Whether a clause that may be absent can be lowered.
pub open spec fn clause_lowerable(clause: Option<Box<NodeView>>) -> bool
    decreases clause,
{
    match clause {
        Some(e) => lowerable(*e),
        None => true,
    }
}

/// Whether every tree of a sequence can be lowered.
pub open spec fn all_lowerable(nodes: Seq<NodeView>) -> bool
    decreases nodes,
{
    if nodes.len() == 0 {
        true
    } else {
        all_lowerable(nodes.drop_last()) && lowerable(nodes.last())
    }
}

/// The lines that compute one operator from `rax` and `rdi` into `rax`. A
/// comparison gives 1 where it holds and 0 where it does not.
pub open spec fn operator_code(op: BinOp) -> Seq<Seq<char>> {
    match op {
        BinOp::Add => seq!["  add rax, rdi"@],
        BinOp::Sub => seq!["  sub rax, rdi"@],
        BinOp::Mul => seq!["  imul rax, rdi"@],
        BinOp::Div => seq!["  cqo"@, "  idiv rdi"@],
        BinOp::Eq => seq!["  cmp rax, rdi"@, "  sete al"@, "  movzb rax, al"@],
        BinOp::Ne => seq!["  cmp rax, rdi"@, "  setne al"@, "  movzb rax, al"@],
        BinOp::Lt => seq!["  cmp rax, rdi"@, "  setl al"@, "  movzb rax, al"@],
        BinOp::Le => seq!["  cmp rax, rdi"@, "  setle al"@, "  movzb rax, al"@],
    }
}

/// The lines that push the address of the frame slot at `offset`.
pub open spec fn address_code(offset: nat) -> Seq<Seq<char>> {
    seq!["  mov rax, rbp"@, "  sub rax, "@ + decimal(offset), "  push rax"@]
}

/// The lines that push the address of the variable `target`.
pub open spec fn target_code(target: NodeView) -> Seq<Seq<char>> {
    match target {
        NodeView::Lvar { ident, offset } => address_code(offset),
        _ => Seq::empty(),
    }
}

/// The lines that pop a condition and jump to `target` followed by `label`
/// where the condition is zero.
pub open spec fn test_code(target: Seq<char>, label: Seq<char>) -> Seq<Seq<char>> {
    seq!["  pop rax"@, "  cmp rax, 0"@, "  je  "@ + target + label]
}

/// The lines of a tree, with `k` as the index of the first free label.
///
/// For an expression they leave its value on the stack. The left side of an
/// assignment has to be a variable: see [`lowerable`].
pub open spec fn node_code(n: NodeView, k: nat) -> Seq<Seq<char>>
    decreases n, 0nat,
{
    match n {
        NodeView::Num(v) => seq!["  push "@ + decimal(v as nat)],
        NodeView::Lvar { ident, offset } => address_code(offset) + seq![
            "  pop rax"@,
            "  mov rax, [rax]"@,
            "  push rax"@,
        ],
        NodeView::Assign { l, r } => target_code(*l) + node_code(*r, k) + seq![
            "  pop rdi"@,
            "  pop rax"@,
            "  mov [rax], rdi"@,
            "  push rdi"@,
        ],
        NodeView::Binary { op, l, r } => node_code(*l, k) + node_code(*r, k + label_count(*l))
            + seq!["  pop rdi"@, "  pop rax"@] + operator_code(op) + seq!["  push rax"@],
        NodeView::Return { expr } => node_code(*expr, k) + seq![
            "  pop rax"@,
            "  mov rsp, rbp"@,
            "  pop rbp"@,
            "  ret"@,
        ],
        NodeView::If { cond, then, els } => {
            let label = label_text(k);
            let k_then = k + 1 + label_count(*cond);
            match els {
                None => node_code(*cond, k + 1) + test_code(".Lend"@, label) + statement_code(
                    *then,
                    k_then,
                ) + seq![".Lend"@ + label + ":"@],
                Some(e) => node_code(*cond, k + 1) + test_code(".Lelse"@, label) + statement_code(
                    *then,
                    k_then,
                ) + seq!["  jmp .Lend"@ + label, ".Lelse"@ + label + ":"@] + statement_code(
                    *e,
                    k_then + label_count(*then),
                ) + seq![".Lend"@ + label + ":"@],
            }
        },
        NodeView::While { cond, then } => {
            let label = label_text(k);
            seq![".Lbegin"@ + label + ":"@] + node_code(*cond, k + 1) + test_code(
                ".Lend"@,
                label,
            ) + statement_code(*then, k + 1 + label_count(*cond)) + seq![
                "  jmp .Lbegin"@ + label,
                ".Lend"@ + label + ":"@,
            ]
        },
        NodeView::For { init, cond, step, then } => {
            let k_loop = k + clause_label_count(init);
            let label = label_text(k_loop);
            let k_then = k_loop + 1 + clause_label_count(cond);
            for_lines(
                clause_code(init, k),
                check_code(cond, k_loop + 1, label),
                statement_code(*then, k_then),
                clause_code(step, k_then + label_count(*then)),
                label,
            )
        },
        NodeView::Block { stmts } => block_code(stmts, k),
    }
}

/// The lines of a `for` statement with the label `label`, put together from
/// the lines of its parts: the initial clause, the label of the loop, the
/// check of the condition, the body, the step and the jump back.
pub open spec fn for_lines(
    init: Seq<Seq<char>>,
    check: Seq<Seq<char>>,
    body: Seq<Seq<char>>,
    step: Seq<Seq<char>>,
    label: Seq<char>,
) -> Seq<Seq<char>> {
    init + seq![".Lbegin"@ + label + ":"@] + check + body + step + seq![
        "  jmp .Lbegin"@ + label,
        ".Lend"@ + label + ":"@,
    ]
}

/// The check of the condition of a `for` statement with the label `label`:
/// nothing where the condition is absent.
pub open spec fn check_code(cond: Option<Box<NodeView>>, k: nat, label: Seq<char>) -> Seq<
    Seq<char>,
>
    decreases cond, 0nat,
{
    match cond {
        Some(c) => node_code(*c, k) + test_code(".Lend"@, label),
        None => Seq::empty(),
    }
}

/// The lines of a tree in the place of a statement: where the tree is an
/// expression, its value is popped.
pub open spec fn statement_code(n: NodeView, k: nat) -> Seq<Seq<char>>
    decreases n, 1nat,
{
    if n.is_statement() {
        node_code(n, k)
    } else {
        node_code(n, k) + seq!["  pop rax"@]
    }
}

/// The lines of a clause of `for` that is evaluated for its effect: nothing
/// where the clause is absent.
pub open spec fn clause_code(clause: Option<Box<NodeView>>, k: nat) -> Seq<Seq<char>>
    decreases clause, 0nat,
{
    match clause {
        Some(e) => statement_code(*e, k),
        None => Seq::empty(),
    }
}

/// The lines of a sequence of statements, one after the other.
pub open spec fn block_code(nodes: Seq<NodeView>, k: nat) -> Seq<Seq<char>>
    decreases nodes, 0nat,
{
    if nodes.len() == 0 {
        Seq::empty()
    } else {
        block_code(nodes.drop_last(), k) + statement_code(
            nodes.last(),
            k + labels_in(nodes.drop_last()),
        )
    }
}

/// The directives and the entry label that open the text.
pub open spec fn prefix_code() -> Seq<Seq<char>> {
    seq![".intel_syntax noprefix"@, ".globl main"@, "main:"@]
}

/// The lines that set up the frame.
pub open spec fn prologue_code() -> Seq<Seq<char>> {
    seq!["  push rbp"@, "  mov rbp, rsp"@, "  sub rsp, "@ + decimal(FRAME_SIZE as nat)]
}

/// The lines that tear down the frame and return.
pub open spec fn epilogue_code() -> Seq<Seq<char>> {
    seq!["  mov rsp, rbp"@, "  pop rbp"@, "  ret"@]
}

/// What a generator does with a program: the error, or nothing to report.
pub open spec fn gen_outcome(nodes: Seq<NodeView>, k: nat) -> Result<(), GenError> {
    if !all_lowerable(nodes) {
        Err(GenError::InvalidAssignmentTarget)
    } else if k + labels_in(nodes) > usize::MAX {
        Err(GenError::TooManyLabels)
    } else {
        Ok(())
    }
}

/// A generator of the text of a program, piece by piece.
pub trait CodeGen {
    /// The lines written so far.
    spec fn emitted(&self) -> Seq<Seq<char>>;

    /// Writes what opens the text.
    fn prefix(&mut self)
        ensures
            old(self).emitted().is_prefix_of(final(self).emitted()),
    ;

    /// Writes what sets up the frame.
    fn prologue(&mut self)
        ensures
            old(self).emitted().is_prefix_of(final(self).emitted()),
    ;

    /// Writes the code of the statements of a program, or nothing where the
    /// program cannot be lowered.
    fn gen_from_nodes(&mut self, nodes: Nodes) -> (r: Result<(), GenError>)
        ensures
            old(self).emitted().is_prefix_of(final(self).emitted()),
            r is Err ==> final(self).emitted() == old(self).emitted(),
    ;

    /// Writes what tears down the frame and returns.
    fn epilogue(&mut self)
        ensures
            old(self).emitted().is_prefix_of(final(self).emitted()),
    ;
}

/// The generator of Intel-syntax assembly. It keeps the lines written and
/// the index of the next free label.
pub struct AsmCodeGen {
    lines: Vec<String>,
    label_index_counter: usize,
}

/// The texts of a sequence of lines.
pub open spec fn line_views(lines: Seq<String>) -> Seq<Seq<char>> {
    lines.map_values(|s: String| s@)
}

impl AsmCodeGen {
    /// The lines written so far.
    pub closed spec fn lines(&self) -> Seq<Seq<char>> {
        line_views(self.lines@)
    }

    /// The index of the next free label. It never goes down, so no label is
    /// used twice.
    pub closed spec fn next_label(&self) -> nat {
        self.label_index_counter as nat
    }

    /// A generator that has written nothing.
    pub fn new() -> (g: AsmCodeGen)
        ensures
            g.lines() == Seq::<Seq<char>>::empty(),
            g.next_label() == 0,
    {
        let g = AsmCodeGen { lines: Vec::new(), label_index_counter: 0 };
        proof {
            assert(g.lines() =~= Seq::<Seq<char>>::empty());
        }
        g
    }

    /// A generator that has written nothing and counts its labels from
    /// `first_label` on.
    pub fn starting_at(first_label: usize) -> (g: AsmCodeGen)
        ensures
            g.lines() == Seq::<Seq<char>>::empty(),
            g.next_label() == first_label,
    {
        let g = AsmCodeGen { lines: Vec::new(), label_index_counter: first_label };
        proof {
            assert(g.lines() =~= Seq::<Seq<char>>::empty());
        }
        g
    }

    /// The lines written so far.
    pub fn output(&self) -> (lines: &Vec<String>)
        ensures
            line_views(lines@) == self.lines(),
    {
        &self.lines
    }

    /// Hands out the lines written.
    pub fn into_lines(self) -> (lines: Vec<String>)
        ensures
            line_views(lines@) == self.lines(),
    {
        self.lines
    }

    /// Writes one line.
    fn line(&mut self, text: &str)
        ensures
            final(self).lines() == old(self).lines() + seq![text@],
            final(self).next_label() == old(self).next_label(),
    {
        self.lines.push(text.to_owned());
        proof {
            assert(self.lines() =~= old(self).lines() + seq![text@]);
        }
    }

    /// Writes the line made of `head`, `middle` and `tail`.
    fn line_of(&mut self, head: &str, middle: &str, tail: &str)
        ensures
            final(self).lines() == old(self).lines() + seq![head@ + middle@ + tail@],
            final(self).next_label() == old(self).next_label(),
    {
        let mut text = head.to_owned();
        text.append(middle);
        text.append(tail);
        self.lines.push(text);
        proof {
            assert(self.lines() =~= old(self).lines() + seq![head@ + middle@ + tail@]);
        }
    }

    /// Writes the line made of `head` and the decimal numeral of `n`.
    fn line_with_number(&mut self, head: &str, n: u64)
        ensures
            final(self).lines() == old(self).lines() + seq![head@ + decimal(n as nat)],
            final(self).next_label() == old(self).next_label(),
    {
        let mut text = head.to_owned();
        push_decimal(&mut text, n);
        self.lines.push(text);
        proof {
            assert(self.lines() =~= old(self).lines() + seq![head@ + decimal(n as nat)]);
        }
    }

    /// Writes two lines.
    fn lines2(&mut self, a: &str, b: &str)
        ensures
            final(self).lines() == old(self).lines() + seq![a@, b@],
            final(self).next_label() == old(self).next_label(),
    {
        broadcast use lemma_lines_assoc, lemma_lines_push;

        self.line(a);
        self.line(b);
    }

    /// Writes three lines.
    fn lines3(&mut self, a: &str, b: &str, c: &str)
        ensures
            final(self).lines() == old(self).lines() + seq![a@, b@, c@],
            final(self).next_label() == old(self).next_label(),
    {
        broadcast use lemma_lines_assoc, lemma_lines_push;

        self.line(a);
        self.line(b);
        self.line(c);
    }

    /// Writes four lines.
    fn lines4(&mut self, a: &str, b: &str, c: &str, d: &str)
        ensures
            final(self).lines() == old(self).lines() + seq![a@, b@, c@, d@],
            final(self).next_label() == old(self).next_label(),
    {
        broadcast use lemma_lines_assoc, lemma_lines_push;

        self.line(a);
        self.line(b);
        self.line(c);
        self.line(d);
    }

    /// Writes the lines that push the address of the variable `node`.
    fn lval(&mut self, node: &Node)
        requires
            node@ is Lvar,
        ensures
            final(self).lines() == old(self).lines() + target_code(node@),
            final(self).next_label() == old(self).next_label(),
    {
        broadcast use lemma_lines_assoc, lemma_lines_push;

        match node {
            Node::Lvar(var) => {
                self.line("  mov rax, rbp");
                self.line_with_number("  sub rax, ", var.offset as u64);
                self.line("  push rax");
            },
            _ => {},
        }
    }

    /// Takes the next free label.
    fn label_index(&mut self) -> (label: Box<String>)
        requires
            old(self).next_label() < usize::MAX,
        ensures
            label@ == label_text(old(self).next_label()),
            final(self).next_label() == old(self).next_label() + 1,
            final(self).lines() == old(self).lines(),
    {
        let mut label = ".L".to_owned();
        push_decimal(&mut label, self.label_index_counter as u64);
        self.label_index_counter = self.label_index_counter + 1;
        Box::new(label)
    }

    /// Writes the lines that pop a condition and jump to `target` followed
    /// by `label` where the condition is zero.
    fn test(&mut self, target: &str, label: &str)
        ensures
            final(self).lines() == old(self).lines() + test_code(target@, label@),
            final(self).next_label() == old(self).next_label(),
    {
        broadcast use lemma_lines_assoc, lemma_lines_push;

        self.line("  pop rax");
        self.line("  cmp rax, 0");
        self.line_of("  je  ", target, label);
    }
}

impl AsmCodeGen {
    /// Writes the line made of `head` and `tail`.
    fn line_pair(&mut self, head: &str, tail: &str)
        ensures
            final(self).lines() == old(self).lines() + seq![head@ + tail@],
            final(self).next_label() == old(self).next_label(),
    {
        let mut text = head.to_owned();
        text.append(tail);
        self.lines.push(text);
        proof {
            assert(self.lines() =~= old(self).lines() + seq![head@ + tail@]);
        }
    }

    /// Writes the lines that compute `op`.
    fn operator(&mut self, op: BinOp)
        ensures
            final(self).lines() == old(self).lines() + operator_code(op),
            final(self).next_label() == old(self).next_label(),
    {
        match op {
            BinOp::Add => self.line("  add rax, rdi"),
            BinOp::Sub => self.line("  sub rax, rdi"),
            BinOp::Mul => self.line("  imul rax, rdi"),
            BinOp::Div => self.lines2("  cqo", "  idiv rdi"),
            BinOp::Eq => self.lines3("  cmp rax, rdi", "  sete al", "  movzb rax, al"),
            BinOp::Ne => self.lines3("  cmp rax, rdi", "  setne al", "  movzb rax, al"),
            BinOp::Lt => self.lines3("  cmp rax, rdi", "  setl al", "  movzb rax, al"),
            BinOp::Le => self.lines3("  cmp rax, rdi", "  setle al", "  movzb rax, al"),
        }
    }

    /// Whether the generator can write the code of `n`: the tree can be
    /// lowered and the label counter has room for its labels.
    pub open spec fn ready_for(&self, n: NodeView) -> bool {
        lowerable(n) && self.next_label() + label_count(n) <= usize::MAX
    }

    /// Writes the code of a tree.
    fn from_node(&mut self, node: &Node)
        requires
            old(self).ready_for(node@),
        ensures
            final(self).lines() == old(self).lines() + node_code(node@, old(self).next_label()),
            final(self).next_label() == old(self).next_label() + label_count(node@),
        decreases node, 2nat,
    {
        let ghost k = self.next_label();
        match node {
            Node::Num(n) => {
                proof {
                    assert(node@ == NodeView::Num(*n));
                    assert(label_count(node@) == 0);
                    assert(node_code(node@, k) == seq!["  push "@ + decimal(*n as nat)]);
                }
                self.line_with_number("  push ", *n as u64);
            },
            Node::Lvar(var) => {
                proof {
                    assert(node@ == (NodeView::Lvar {
                        ident: var.ident@,
                        offset: var.offset as nat,
                    }));
                    assert(label_count(node@) == 0);
                    assert(node_code(node@, k) == target_code(node@) + seq![
                        "  pop rax"@,
                        "  mov rax, [rax]"@,
                        "  push rax"@,
                    ]);
                }
                self.variable(node);
            },
            Node::Assign { l, r } => {
                proof {
                    assert(node@ == (NodeView::Assign { l: Box::new(l@), r: Box::new(r@) }));
                    assert(l@ is Lvar && lowerable(r@));
                    assert(label_count(node@) == label_count(r@));
                }
                self.assign(node, l, r);
            },
            Node::Return { expr } => {
                proof {
                    assert(node@ == (NodeView::Return { expr: Box::new(expr@) }));
                    assert(lowerable(expr@));
                    assert(label_count(node@) == label_count(expr@));
                }
                self.ret(node, expr);
            },
            Node::If { cond, then, els } => {
                proof {
                    assert(node@ == (NodeView::If {
                        cond: Box::new(cond@),
                        then: Box::new(then@),
                        els: clause_view(*els),
                    }));
                    assert(lowerable(cond@) && lowerable(then@));
                    assert(clause_lowerable(clause_view(*els)));
                    assert(label_count(node@) == 1 + label_count(cond@) + label_count(then@)
                        + clause_label_count(clause_view(*els)));
                }
                match els {
                    Some(e) => {
                        assert(clause_label_count(clause_view(*els)) == label_count(e@));
                        self.if_else(node, cond, then, e);
                    },
                    None => {
                        assert(clause_label_count(clause_view(*els)) == 0);
                        self.if_then(node, cond, then);
                    },
                }
            },
            Node::While { cond, then } => {
                proof {
                    assert(node@ == (NodeView::While {
                        cond: Box::new(cond@),
                        then: Box::new(then@),
                    }));
                    assert(lowerable(cond@) && lowerable(then@));
                    assert(label_count(node@) == 1 + label_count(cond@) + label_count(then@));
                }
                self.while_loop(node, cond, then);
            },
            Node::For { init, cond, step, then } => {
                proof {
                    assert(node@ == (NodeView::For {
                        init: clause_view(*init),
                        cond: clause_view(*cond),
                        step: clause_view(*step),
                        then: Box::new(then@),
                    }));
                    assert(clause_lowerable(clause_view(*init)));
                    assert(clause_lowerable(clause_view(*cond)));
                    assert(clause_lowerable(clause_view(*step)));
                    assert(lowerable(then@));
                    assert(label_count(node@) == clause_label_count(clause_view(*init)) + 1
                        + clause_label_count(clause_view(*cond)) + label_count(then@)
                        + clause_label_count(clause_view(*step)));
                }
                self.for_loop(node, init, cond, step, then);
            },
            Node::Block { stmts } => {
                proof {
                    lemma_block_view(*stmts);
                    assert(all_lowerable(node_views(stmts@)));
                    assert(label_count(node@) == labels_in(node_views(stmts@)));
                    assert(node_code(node@, k) == block_code(node_views(stmts@), k));
                }
                self.statements(stmts);
            },
            _ => {
                match node.as_binary() {
                    Some((op, l, r)) => {
                        proof {
                            assert(lowerable(l@) && lowerable(r@));
                            assert(label_count(node@) == label_count(l@) + label_count(r@));
                        }
                        self.binary(node, op, l, r);
                    },
                    None => {
                        assert(node@ is Binary);
                    },
                }
            },
        }
    }

    /// Writes the code of a tree in the place of a statement.
    fn statement(&mut self, node: &Node)
        requires
            old(self).ready_for(node@),
        ensures
            final(self).lines() == old(self).lines() + statement_code(
                node@,
                old(self).next_label(),
            ),
            final(self).next_label() == old(self).next_label() + label_count(node@),
        decreases node, 3nat,
    {
        broadcast use lemma_lines_assoc;

        self.from_node(node);
        if !node.is_statement() {
            self.line("  pop rax");
        }
    }

    /// Writes the code of a clause of `for` that is evaluated for its effect.
    fn clause(&mut self, clause: &Option<Box<Node>>)
        requires
            clause_lowerable(clause_view(*clause)),
            old(self).next_label() + clause_label_count(clause_view(*clause)) <= usize::MAX,
        ensures
            final(self).lines() == old(self).lines() + clause_code(
                clause_view(*clause),
                old(self).next_label(),
            ),
            final(self).next_label() == old(self).next_label() + clause_label_count(
                clause_view(*clause),
            ),
        decreases clause, 0nat,
    {
        broadcast use lemma_lines_empty;

        match clause {
            Some(e) => {
                self.statement(e);
            },
            None => {},
        }
    }

    /// Writes the code that reads the variable `node`.
    fn variable(&mut self, node: &Node)
        requires
            node@ is Lvar,
        ensures
            final(self).lines() == old(self).lines() + (target_code(node@) + seq![
                "  pop rax"@,
                "  mov rax, [rax]"@,
                "  push rax"@,
            ]),
            final(self).next_label() == old(self).next_label(),
    {
        broadcast use lemma_lines_assoc;

        self.lval(node);
        self.lines3("  pop rax", "  mov rax, [rax]", "  push rax");
    }

    /// Writes the code of the operator `op` applied to the children `l` and
    /// `r` of `parent`.
    fn binary(&mut self, parent: &Node, op: BinOp, l: &Node, r: &Node)
        requires
            decreases_to!(parent => l),
            decreases_to!(parent => r),
            lowerable(l@),
            lowerable(r@),
            old(self).next_label() + label_count(l@) + label_count(r@) <= usize::MAX,
        ensures
            final(self).lines() == old(self).lines() + (node_code(l@, old(self).next_label())
                + node_code(r@, old(self).next_label() + label_count(l@)) + seq![
                "  pop rdi"@,
                "  pop rax"@,
            ] + operator_code(op) + seq!["  push rax"@]),
            final(self).next_label() == old(self).next_label() + label_count(l@) + label_count(
                r@,
            ),
        decreases parent, 0nat,
    {
        broadcast use lemma_lines_assoc;

        self.from_node(l);
        self.from_node(r);
        self.compute(op);
    }

    /// Writes the lines that pop two operands, compute `op` of them and push
    /// what comes of it.
    fn compute(&mut self, op: BinOp)
        ensures
            final(self).lines() == old(self).lines() + (seq!["  pop rdi"@, "  pop rax"@]
                + operator_code(op) + seq!["  push rax"@]),
            final(self).next_label() == old(self).next_label(),
    {
        broadcast use lemma_lines_assoc;

        self.lines2("  pop rdi", "  pop rax");
        self.operator(op);
        self.line("  push rax");
    }

    /// Writes the code of the assignment `parent` of `r` to the variable `l`.
    fn assign(&mut self, parent: &Node, l: &Node, r: &Node)
        requires
            decreases_to!(parent => r),
            l@ is Lvar,
            old(self).ready_for(r@),
        ensures
            final(self).lines() == old(self).lines() + (target_code(l@) + node_code(
                r@,
                old(self).next_label(),
            ) + seq!["  pop rdi"@, "  pop rax"@, "  mov [rax], rdi"@, "  push rdi"@]),
            final(self).next_label() == old(self).next_label() + label_count(r@),
        decreases parent, 0nat,
    {
        broadcast use lemma_lines_assoc;

        self.lval(l);
        self.from_node(r);
        self.lines4("  pop rdi", "  pop rax", "  mov [rax], rdi", "  push rdi");
    }

    /// Writes the code of the statement `parent` that returns `expr`.
    fn ret(&mut self, parent: &Node, expr: &Node)
        requires
            decreases_to!(parent => expr),
            old(self).ready_for(expr@),
        ensures
            final(self).lines() == old(self).lines() + (node_code(expr@, old(self).next_label())
                + seq!["  pop rax"@, "  mov rsp, rbp"@, "  pop rbp"@, "  ret"@]),
            final(self).next_label() == old(self).next_label() + label_count(expr@),
        decreases parent, 0nat,
    {
        broadcast use lemma_lines_assoc;

        self.from_node(expr);
        self.lines4("  pop rax", "  mov rsp, rbp", "  pop rbp", "  ret");
    }

    /// Writes the code of the condition `cond`, the jump to `target`
    /// followed by `label` for a condition that is zero, and the code of the
    /// statement `then`; all three are children of `parent`.
    fn branch(&mut self, parent: &Node, cond: &Node, then: &Node, target: &str, label: &str)
        requires
            decreases_to!(parent => cond),
            decreases_to!(parent => then),
            lowerable(cond@),
            lowerable(then@),
            old(self).next_label() + label_count(cond@) + label_count(then@) <= usize::MAX,
        ensures
            final(self).lines() == old(self).lines() + (node_code(cond@, old(self).next_label())
                + test_code(target@, label@) + statement_code(
                then@,
                old(self).next_label() + label_count(cond@),
            )),
            final(self).next_label() == old(self).next_label() + label_count(cond@) + label_count(
                then@,
            ),
        decreases parent, 0nat,
    {
        broadcast use lemma_lines_assoc;

        self.from_node(cond);
        self.test(target, label);
        self.statement(then);
    }

    /// Writes the code of the `if` statement `parent` without `else`.
    fn if_then(&mut self, parent: &Node, cond: &Node, then: &Node)
        requires
            decreases_to!(parent => cond),
            decreases_to!(parent => then),
            lowerable(cond@),
            lowerable(then@),
            old(self).next_label() + 1 + label_count(cond@) + label_count(then@) <= usize::MAX,
        ensures
            final(self).lines() == old(self).lines() + (node_code(
                cond@,
                old(self).next_label() + 1,
            ) + test_code(".Lend"@, label_text(old(self).next_label())) + statement_code(
                then@,
                old(self).next_label() + 1 + label_count(cond@),
            ) + seq![".Lend"@ + label_text(old(self).next_label()) + ":"@]),
            final(self).next_label() == old(self).next_label() + 1 + label_count(cond@)
                + label_count(then@),
        decreases parent, 1nat,
    {
        broadcast use lemma_lines_assoc;

        let label = self.label_index();
        self.branch(parent, cond, then, ".Lend", label.as_str());
        self.line_of(".Lend", label.as_str(), ":");
    }

    /// Writes the jump over the `else` branch `els` of `parent`, the label of
    /// the branch, its code, and the label behind it.
    fn otherwise(&mut self, parent: &Node, els: &Node, label: &str)
        requires
            decreases_to!(parent => els),
            old(self).ready_for(els@),
        ensures
            final(self).lines() == old(self).lines() + (seq![
                "  jmp .Lend"@ + label@,
                ".Lelse"@ + label@ + ":"@,
            ] + statement_code(els@, old(self).next_label()) + seq![".Lend"@ + label@ + ":"@]),
            final(self).next_label() == old(self).next_label() + label_count(els@),
        decreases parent, 0nat,
    {
        broadcast use lemma_lines_assoc, lemma_lines_push;

        self.line_pair("  jmp .Lend", label);
        self.line_of(".Lelse", label, ":");
        self.statement(els);
        self.line_of(".Lend", label, ":");
    }

    /// Writes the code of the `if` statement `parent` with the `else` branch
    /// `els`.
    fn if_else(&mut self, parent: &Node, cond: &Node, then: &Node, els: &Node)
        requires
            decreases_to!(parent => cond),
            decreases_to!(parent => then),
            decreases_to!(parent => els),
            lowerable(cond@),
            lowerable(then@),
            lowerable(els@),
            old(self).next_label() + 1 + label_count(cond@) + label_count(then@) + label_count(
                els@,
            ) <= usize::MAX,
        ensures
            final(self).lines() == old(self).lines() + (node_code(
                cond@,
                old(self).next_label() + 1,
            ) + test_code(".Lelse"@, label_text(old(self).next_label())) + statement_code(
                then@,
                old(self).next_label() + 1 + label_count(cond@),
            ) + seq![
                "  jmp .Lend"@ + label_text(old(self).next_label()),
                ".Lelse"@ + label_text(old(self).next_label()) + ":"@,
            ] + statement_code(
                els@,
                old(self).next_label() + 1 + label_count(cond@) + label_count(then@),
            ) + seq![".Lend"@ + label_text(old(self).next_label()) + ":"@]),
            final(self).next_label() == old(self).next_label() + 1 + label_count(cond@)
                + label_count(then@) + label_count(els@),
        decreases parent, 1nat,
    {
        broadcast use lemma_lines_assoc;

        let label = self.label_index();
        self.branch(parent, cond, then, ".Lelse", label.as_str());
        self.otherwise(parent, els, label.as_str());
    }

    /// Writes the jump back to the start of the loop with the label `label`
    /// and the label behind the loop.
    fn again(&mut self, label: &str)
        ensures
            final(self).lines() == old(self).lines() + seq![
                "  jmp .Lbegin"@ + label@,
                ".Lend"@ + label@ + ":"@,
            ],
            final(self).next_label() == old(self).next_label(),
    {
        broadcast use lemma_lines_assoc, lemma_lines_push;

        self.line_pair("  jmp .Lbegin", label);
        self.line_of(".Lend", label, ":");
    }

    /// Writes the code of the `while` statement `parent`.
    fn while_loop(&mut self, parent: &Node, cond: &Node, then: &Node)
        requires
            decreases_to!(parent => cond),
            decreases_to!(parent => then),
            lowerable(cond@),
            lowerable(then@),
            old(self).next_label() + 1 + label_count(cond@) + label_count(then@) <= usize::MAX,
        ensures
            final(self).lines() == old(self).lines() + (seq![
                ".Lbegin"@ + label_text(old(self).next_label()) + ":"@,
            ] + node_code(cond@, old(self).next_label() + 1) + test_code(
                ".Lend"@,
                label_text(old(self).next_label()),
            ) + statement_code(then@, old(self).next_label() + 1 + label_count(cond@)) + seq![
                "  jmp .Lbegin"@ + label_text(old(self).next_label()),
                ".Lend"@ + label_text(old(self).next_label()) + ":"@,
            ]),
            final(self).next_label() == old(self).next_label() + 1 + label_count(cond@)
                + label_count(then@),
        decreases parent, 1nat,
    {
        broadcast use lemma_lines_assoc;

        let label = self.label_index();
        self.line_of(".Lbegin", label.as_str(), ":");
        self.branch(parent, cond, then, ".Lend", label.as_str());
        self.again(label.as_str());
    }

    /// Writes the check of the condition of a `for` statement with the label
    /// `label`: nothing where the condition is absent.
    fn for_condition(&mut self, cond: &Option<Box<Node>>, label: &str)
        requires
            clause_lowerable(clause_view(*cond)),
            old(self).next_label() + clause_label_count(clause_view(*cond)) <= usize::MAX,
        ensures
            final(self).lines() == old(self).lines() + check_code(
                clause_view(*cond),
                old(self).next_label(),
                label@,
            ),
            final(self).next_label() == old(self).next_label() + clause_label_count(
                clause_view(*cond),
            ),
        decreases cond, 0nat,
    {
        broadcast use lemma_lines_assoc, lemma_lines_empty;

        match cond {
            Some(c) => {
                self.from_node(c);
                self.test(".Lend", label);
            },
            None => {},
        }
    }

    /// Writes the first clause of the `for` statement `parent`, takes the
    /// label of the loop, and writes the label and the check of the
    /// condition.
    fn for_head(&mut self, parent: &Node, init: &Option<Box<Node>>, cond: &Option<Box<Node>>) -> (label:
        Box<String>)
        requires
            decreases_to!(parent => init),
            decreases_to!(parent => cond),
            clause_lowerable(clause_view(*init)),
            clause_lowerable(clause_view(*cond)),
            old(self).next_label() + clause_label_count(clause_view(*init)) + 1
                + clause_label_count(clause_view(*cond)) <= usize::MAX,
        ensures
            label@ == label_text(old(self).next_label() + clause_label_count(clause_view(*init))),
            final(self).lines() == old(self).lines() + (clause_code(
                clause_view(*init),
                old(self).next_label(),
            ) + seq![".Lbegin"@ + label@ + ":"@] + check_code(
                clause_view(*cond),
                old(self).next_label() + clause_label_count(clause_view(*init)) + 1,
                label@,
            )),
            final(self).next_label() == old(self).next_label() + clause_label_count(
                clause_view(*init),
            ) + 1 + clause_label_count(clause_view(*cond)),
        decreases parent, 0nat,
    {
        broadcast use lemma_lines_assoc;

        self.clause(init);
        let label = self.label_index();
        self.line_of(".Lbegin", label.as_str(), ":");
        self.for_condition(cond, label.as_str());
        label
    }

    /// Writes the body `then` of the `for` statement `parent`, its last
    /// clause, and the jump back.
    fn for_tail(&mut self, parent: &Node, step: &Option<Box<Node>>, then: &Node, label: &str)
        requires
            decreases_to!(parent => step),
            decreases_to!(parent => then),
            clause_lowerable(clause_view(*step)),
            lowerable(then@),
            old(self).next_label() + label_count(then@) + clause_label_count(clause_view(*step))
                <= usize::MAX,
        ensures
            final(self).lines() == old(self).lines() + (statement_code(
                then@,
                old(self).next_label(),
            ) + clause_code(clause_view(*step), old(self).next_label() + label_count(then@))
                + seq!["  jmp .Lbegin"@ + label@, ".Lend"@ + label@ + ":"@]),
            final(self).next_label() == old(self).next_label() + label_count(then@)
                + clause_label_count(clause_view(*step)),
        decreases parent, 0nat,
    {
        broadcast use lemma_lines_assoc;

        self.statement(then);
        self.clause(step);
        self.again(label);
    }

    /// Writes the code of the `for` statement `parent`.
    fn for_loop(
        &mut self,
        parent: &Node,
        init: &Option<Box<Node>>,
        cond: &Option<Box<Node>>,
        step: &Option<Box<Node>>,
        then: &Node,
    )
        requires
            decreases_to!(parent => init),
            decreases_to!(parent => cond),
            decreases_to!(parent => step),
            decreases_to!(parent => then),
            clause_lowerable(clause_view(*init)),
            clause_lowerable(clause_view(*cond)),
            clause_lowerable(clause_view(*step)),
            lowerable(then@),
            old(self).next_label() + clause_label_count(clause_view(*init)) + 1
                + clause_label_count(clause_view(*cond)) + label_count(then@)
                + clause_label_count(clause_view(*step)) <= usize::MAX,
        ensures
            final(self).lines() == old(self).lines() + for_lines(
                clause_code(clause_view(*init), old(self).next_label()),
                check_code(
                    clause_view(*cond),
                    old(self).next_label() + clause_label_count(clause_view(*init)) + 1,
                    label_text(old(self).next_label() + clause_label_count(clause_view(*init))),
                ),
                statement_code(
                    then@,
                    old(self).next_label() + clause_label_count(clause_view(*init)) + 1
                        + clause_label_count(clause_view(*cond)),
                ),
                clause_code(
                    clause_view(*step),
                    old(self).next_label() + clause_label_count(clause_view(*init)) + 1
                        + clause_label_count(clause_view(*cond)) + label_count(then@),
                ),
                label_text(old(self).next_label() + clause_label_count(clause_view(*init))),
            ),
            final(self).next_label() == old(self).next_label() + clause_label_count(
                clause_view(*init),
            ) + 1 + clause_label_count(clause_view(*cond)) + label_count(then@)
                + clause_label_count(clause_view(*step)),
        decreases parent, 1nat,
    {
        broadcast use lemma_lines_assoc;

        let label = self.for_head(parent, init, cond);
        self.for_tail(parent, step, then, label.as_str());
    }

    /// Writes the code of a sequence of statements.
    fn statements(&mut self, stmts: &Vec<Box<Node>>)
        requires
            all_lowerable(node_views(stmts@)),
            old(self).next_label() + labels_in(node_views(stmts@)) <= usize::MAX,
        ensures
            final(self).lines() == old(self).lines() + block_code(
                node_views(stmts@),
                old(self).next_label(),
            ),
            final(self).next_label() == old(self).next_label() + labels_in(node_views(stmts@)),
        decreases stmts, 4nat,
    {
        broadcast use lemma_lines_assoc, lemma_lines_empty;

        let ghost views = node_views(stmts@);
        let ghost k = self.next_label();
        let mut i: usize = 0;
        proof {
            assert(views.take(0) =~= Seq::<NodeView>::empty());
            assert(views.take(views.len() as int) =~= views);
            lemma_prefixes(views, views.len() as int);
        }
        while i < stmts.len()
            invariant
                i <= stmts.len(),
                views == node_views(stmts@),
                forall|j: int|
                    0 <= j <= views.len() ==> all_lowerable(#[trigger] views.take(j))
                        && labels_in(views.take(j)) <= labels_in(views),
                k + labels_in(views) <= usize::MAX,
                self.lines() == old(self).lines() + block_code(views.take(i as int), k),
                self.next_label() == k + labels_in(views.take(i as int)),
            decreases stmts.len() - i,
        {
            proof {
                assert(views.take(i + 1).drop_last() =~= views.take(i as int));
                assert(views.take(i + 1).last() == stmts[i as int]@);
                assert(all_lowerable(views.take(i + 1)));
            }
            self.statement(&stmts[i]);
            i = i + 1;
        }
        proof {
            assert(views.take(i as int) =~= views);
        }
    }
}

/// Every prefix of a sequence of trees that can be lowered can be lowered,
/// and takes no more labels than the whole.
pub proof fn lemma_prefixes(nodes: Seq<NodeView>, n: int)
    requires
        0 <= n <= nodes.len(),
    ensures
        forall|j: int|
            0 <= j <= n ==> labels_in(#[trigger] nodes.take(j)) <= labels_in(nodes.take(n)) && (
            all_lowerable(nodes.take(n)) ==> all_lowerable(nodes.take(j))),
    decreases n,
{
    if n > 0 {
        lemma_prefixes(nodes, n - 1);
        assert(nodes.take(n).drop_last() =~= nodes.take(n - 1));
    }
}

/// The sum of two counts, where both are known and the sum fits in `usize`.
fn plus(a: Option<usize>, b: Option<usize>) -> (sum: Option<usize>)
    ensures
        match sum {
            Some(c) => a is Some && b is Some && c == a->0 + b->0,
            None => a is None || b is None || a->0 + b->0 > usize::MAX,
        },
{
    match (a, b) {
        (Some(x), Some(y)) => x.checked_add(y),
        _ => None,
    }
}

/// Whether a tree can be lowered.
fn can_lower(node: &Node) -> (r: bool)
    ensures
        r == lowerable(node@),
    decreases node, 0nat,
{
    match node {
        Node::Num(_) => true,
        Node::Lvar(_) => true,
        Node::Assign { l, r } => {
            let is_variable: bool = match **l {
                Node::Lvar(_) => true,
                _ => false,
            };
            assert(is_variable == (l@ is Lvar));
            is_variable && can_lower(r)
        },
        Node::Return { expr } => can_lower(expr),
        Node::If { cond, then, els } => can_lower(cond) && can_lower(then) && clause_can_lower(
            els,
        ),
        Node::While { cond, then } => can_lower(cond) && can_lower(then),
        Node::For { init, cond, step, then } => clause_can_lower(init) && clause_can_lower(cond)
            && clause_can_lower(step) && can_lower(then),
        Node::Block { stmts } => {
            proof {
                lemma_block_view(*stmts);
            }
            all_can_lower(stmts)
        },
        _ => {
            match node.as_binary() {
                Some((_, l, r)) => can_lower(l) && can_lower(r),
                None => {
                    assert(node@ is Binary);
                    true
                },
            }
        },
    }
}

/// Whether a clause that may be absent can be lowered.
fn clause_can_lower(clause: &Option<Box<Node>>) -> (r: bool)
    ensures
        r == clause_lowerable(clause_view(*clause)),
    decreases clause, 0nat,
{
    match clause {
        Some(e) => can_lower(e),
        None => true,
    }
}

/// Whether every tree of a sequence can be lowered.
fn all_can_lower(stmts: &Vec<Box<Node>>) -> (r: bool)
    ensures
        r == all_lowerable(node_views(stmts@)),
    decreases stmts, 0nat,
{
    let ghost views = node_views(stmts@);
    let mut i: usize = 0;
    proof {
        assert(views.take(0) =~= Seq::<NodeView>::empty());
        assert(views.take(views.len() as int) =~= views);
        lemma_prefixes(views, views.len() as int);
    }
    while i < stmts.len()
        invariant
            i <= stmts.len(),
            views == node_views(stmts@),
            all_lowerable(views.take(i as int)),
            forall|j: int|
                0 <= j <= views.len() ==> (all_lowerable(views) ==> all_lowerable(
                    #[trigger] views.take(j),
                )),
        decreases stmts.len() - i,
    {
        proof {
            assert(views.take(i + 1).drop_last() =~= views.take(i as int));
            assert(views.take(i + 1).last() == stmts[i as int]@);
        }
        if !can_lower(&stmts[i]) {
            return false;
        }
        i = i + 1;
    }
    proof {
        assert(views.take(i as int) =~= views);
    }
    true
}

/// The number of labels that the code of a tree takes, where it fits in
/// `usize`.
fn count_labels(node: &Node) -> (count: Option<usize>)
    ensures
        match count {
            Some(c) => c == label_count(node@),
            None => label_count(node@) > usize::MAX,
        },
    decreases node, 0nat,
{
    match node {
        Node::Num(_) => Some(0),
        Node::Lvar(_) => Some(0),
        Node::Assign { l, r } => count_labels(r),
        Node::Return { expr } => count_labels(expr),
        Node::If { cond, then, els } => plus(
            plus(plus(Some(1), count_labels(cond)), count_labels(then)),
            clause_count_labels(els),
        ),
        Node::While { cond, then } => plus(plus(Some(1), count_labels(cond)), count_labels(then)),
        Node::For { init, cond, step, then } => plus(
            plus(
                plus(plus(clause_count_labels(init), Some(1)), clause_count_labels(cond)),
                count_labels(then),
            ),
            clause_count_labels(step),
        ),
        Node::Block { stmts } => {
            proof {
                lemma_block_view(*stmts);
            }
            count_labels_in(stmts)
        },
        _ => {
            match node.as_binary() {
                Some((_, l, r)) => plus(count_labels(l), count_labels(r)),
                None => {
                    assert(node@ is Binary);
                    Some(0)
                },
            }
        },
    }
}

/// The number of labels of a clause that may be absent.
fn clause_count_labels(clause: &Option<Box<Node>>) -> (count: Option<usize>)
    ensures
        match count {
            Some(c) => c == clause_label_count(clause_view(*clause)),
            None => clause_label_count(clause_view(*clause)) > usize::MAX,
        },
    decreases clause, 0nat,
{
    match clause {
        Some(e) => count_labels(e),
        None => Some(0),
    }
}

/// The number of labels of a sequence of trees.
fn count_labels_in(stmts: &Vec<Box<Node>>) -> (count: Option<usize>)
    ensures
        match count {
            Some(c) => c == labels_in(node_views(stmts@)),
            None => labels_in(node_views(stmts@)) > usize::MAX,
        },
    decreases stmts, 0nat,
{
    let ghost views = node_views(stmts@);
    let mut total: usize = 0;
    let mut i: usize = 0;
    proof {
        assert(views.take(0) =~= Seq::<NodeView>::empty());
        assert(views.take(views.len() as int) =~= views);
        lemma_prefixes(views, views.len() as int);
    }
    while i < stmts.len()
        invariant
            i <= stmts.len(),
            views == node_views(stmts@),
            total == labels_in(views.take(i as int)),
            forall|j: int|
                0 <= j <= views.len() ==> labels_in(#[trigger] views.take(j)) <= labels_in(views),
        decreases stmts.len() - i,
    {
        proof {
            assert(views.take(i + 1).drop_last() =~= views.take(i as int));
            assert(views.take(i + 1).last() == stmts[i as int]@);
        }
        match plus(Some(total), count_labels(&stmts[i])) {
            Some(c) => {
                total = c;
            },
            None => {
                return None;
            },
        }
        i = i + 1;
    }
    proof {
        assert(views.take(i as int) =~= views);
    }
    Some(total)
}

impl CodeGen for AsmCodeGen {
    open spec fn emitted(&self) -> Seq<Seq<char>> {
        self.lines()
    }

    /// Writes the directives and the entry label.
    fn prefix(&mut self)
        ensures
            final(self).lines() == old(self).lines() + prefix_code(),
            final(self).next_label() == old(self).next_label(),
    {
        self.lines3(".intel_syntax noprefix", ".globl main", "main:");
    }

    /// Writes the lines that set up the frame.
    fn prologue(&mut self)
        ensures
            final(self).lines() == old(self).lines() + prologue_code(),
            final(self).next_label() == old(self).next_label(),
    {
        broadcast use lemma_lines_assoc, lemma_lines_push;

        self.line("  push rbp");
        self.line("  mov rbp, rsp");
        self.line_with_number("  sub rsp, ", FRAME_SIZE as u64);
    }

    /// Writes the code of each statement of `nodes` in order.
    ///
    /// Nothing is written, and no label is taken, where an assignment in the
    /// program has no variable on its left or the label counter has no room
    /// for the labels of the program.
    fn gen_from_nodes(&mut self, nodes: Nodes) -> (r: Result<(), GenError>)
        ensures
            r == gen_outcome(nodes@, old(self).next_label()),
            r is Ok ==> final(self).lines() == old(self).lines() + block_code(
                nodes@,
                old(self).next_label(),
            ) && final(self).next_label() == old(self).next_label() + labels_in(nodes@),
            r is Err ==> final(self).lines() == old(self).lines() && final(self).next_label()
                == old(self).next_label(),
    {
        if !all_can_lower(&nodes.0) {
            return Err(GenError::InvalidAssignmentTarget);
        }
        match plus(Some(self.label_index_counter), count_labels_in(&nodes.0)) {
            Some(_) => {},
            None => {
                return Err(GenError::TooManyLabels);
            },
        }
        self.statements(&nodes.0);
        Ok(())
    }

    /// Writes the lines that tear down the frame and return.
    fn epilogue(&mut self)
        ensures
            final(self).lines() == old(self).lines() + epilogue_code(),
            final(self).next_label() == old(self).next_label(),
    {
        self.lines3("  mov rsp, rbp", "  pop rbp", "  ret");
    }
}

} // verus!
