//! The abstract syntax tree, its mathematical model and its canonical text.
use crate::text::{decimal, lemma_text_assoc, lemma_text_empty, push_decimal};
use vstd::prelude::*;
use vstd::string::StringExecFns;

verus! {

/// A local variable: its name and the distance of its slot below the frame
/// base, in bytes.
#[derive(Debug, PartialEq)]
pub struct LocalVar {
    pub offset: usize,
    pub ident: Box<String>,
}

impl Clone for LocalVar {
    fn clone(&self) -> (r: LocalVar)
        ensures
            r.offset == self.offset,
            r.ident@ == self.ident@,
    {
        LocalVar { offset: self.offset, ident: Box::new((*self.ident).clone()) }
    }
}

/// One tree of the program: an expression or a statement. A node owns its
/// children.
#[derive(Debug, PartialEq)]
#[allow(inconsistent_fields)]
pub enum Node {
    Num(u32),
    Lvar(LocalVar),
    Assign { l: Box<Node>, r: Box<Node> },
    Add { l: Box<Node>, r: Box<Node> },
    Sub { l: Box<Node>, r: Box<Node> },
    Mul { l: Box<Node>, r: Box<Node> },
    Div { l: Box<Node>, r: Box<Node> },
    Lt { l: Box<Node>, r: Box<Node> },
    Le { l: Box<Node>, r: Box<Node> },
    Eq { l: Box<Node>, r: Box<Node> },
    Ne { l: Box<Node>, r: Box<Node> },
    Return { expr: Box<Node> },
    If { cond: Box<Node>, then: Box<Node>, els: Option<Box<Node>> },
    While { cond: Box<Node>, then: Box<Node> },
    For { init: Option<Box<Node>>, cond: Option<Box<Node>>, step: Option<Box<Node>>, then: Box<Node> },
    Block { stmts: Vec<Box<Node>> },
}

/// The program: its top-level statements in order.
#[derive(Debug, PartialEq)]
pub struct Nodes(pub Vec<Box<Node>>);

/// The operators with two operands that compute a value from two values.
/// `>` and `>=` are not among them: the parser writes them as `<` and `<=`
/// with the operands swapped.
#[derive(Debug, Clone, Copy, PartialEq, Eq, Structural)]
pub enum BinOp {
    Add,
    Sub,
    Mul,
    Div,
    Lt,
    Le,
    Eq,
    Ne,
}

/// The mathematical value of a [`Node`].
#[allow(inconsistent_fields)]
pub enum NodeView {
    Num(u32),
    Lvar { ident: Seq<char>, offset: nat },
    Assign { l: Box<NodeView>, r: Box<NodeView> },
    Binary { op: BinOp, l: Box<NodeView>, r: Box<NodeView> },
    Return { expr: Box<NodeView> },
    If { cond: Box<NodeView>, then: Box<NodeView>, els: Option<Box<NodeView>> },
    While { cond: Box<NodeView>, then: Box<NodeView> },
    For {
        init: Option<Box<NodeView>>,
        cond: Option<Box<NodeView>>,
        step: Option<Box<NodeView>>,
        then: Box<NodeView>,
    },
    Block { stmts: Seq<NodeView> },
}

impl NodeView {
    /// The node of an operator applied to two operands.
    pub open spec fn binary(op: BinOp, l: NodeView, r: NodeView) -> NodeView {
        NodeView::Binary { op, l: Box::new(l), r: Box::new(r) }
    }

    /// Whether the node is a statement form, which leaves no value behind:
    /// `return`, `if`, `while`, `for` or a block.
    pub open spec fn is_statement(self) -> bool {
        self is Return || self is If || self is While || self is For || self is Block
    }
}

impl Node {
    /// The value of the tree.
    pub open spec fn model(&self) -> NodeView
        decreases self,
    {
        match self {
            Node::Num(n) => NodeView::Num(*n),
            Node::Lvar(var) => NodeView::Lvar { ident: var.ident@, offset: var.offset as nat },
            Node::Assign { l, r } => NodeView::Assign {
                l: Box::new(l.model()),
                r: Box::new(r.model()),
            },
            Node::Add { l, r } => NodeView::binary(BinOp::Add, l.model(), r.model()),
            Node::Sub { l, r } => NodeView::binary(BinOp::Sub, l.model(), r.model()),
            Node::Mul { l, r } => NodeView::binary(BinOp::Mul, l.model(), r.model()),
            Node::Div { l, r } => NodeView::binary(BinOp::Div, l.model(), r.model()),
            Node::Lt { l, r } => NodeView::binary(BinOp::Lt, l.model(), r.model()),
            Node::Le { l, r } => NodeView::binary(BinOp::Le, l.model(), r.model()),
            Node::Eq { l, r } => NodeView::binary(BinOp::Eq, l.model(), r.model()),
            Node::Ne { l, r } => NodeView::binary(BinOp::Ne, l.model(), r.model()),
            Node::Return { expr } => NodeView::Return { expr: Box::new(expr.model()) },
            Node::If { cond, then, els } => NodeView::If {
                cond: Box::new(cond.model()),
                then: Box::new(then.model()),
                els: match els {
                    Some(e) => Some(Box::new(e.model())),
                    None => None,
                },
            },
            Node::While { cond, then } => NodeView::While {
                cond: Box::new(cond.model()),
                then: Box::new(then.model()),
            },
            Node::For { init, cond, step, then } => NodeView::For {
                init: match init {
                    Some(e) => Some(Box::new(e.model())),
                    None => None,
                },
                cond: match cond {
                    Some(e) => Some(Box::new(e.model())),
                    None => None,
                },
                step: match step {
                    Some(e) => Some(Box::new(e.model())),
                    None => None,
                },
                then: Box::new(then.model()),
            },
            Node::Block { stmts } => NodeView::Block {
                stmts: Seq::new(
                    stmts@.len(),
                    |i: int|
                        if 0 <= i < stmts@.len() {
                            stmts@[i].model()
                        } else {
                            NodeView::Num(0)
                        },
                ),
            },
        }
    }
}

impl View for Node {
    type V = NodeView;

    open spec fn view(&self) -> NodeView {
        self.model()
    }
}

/// The values of a sequence of trees.
pub open spec fn node_views(nodes: Seq<Box<Node>>) -> Seq<NodeView> {
    Seq::new(nodes.len(), |i: int| nodes[i]@)
}

impl View for Nodes {
    type V = Seq<NodeView>;

    open spec fn view(&self) -> Seq<NodeView> {
        node_views(self.0@)
    }
}

/// The children of a block are the values of its statements.
pub proof fn lemma_block_view(stmts: Vec<Box<Node>>)
    ensures
        (Node::Block { stmts })@ == (NodeView::Block { stmts: node_views(stmts@) }),
{
    assert((Node::Block { stmts })@->Block_stmts =~= node_views(stmts@));
}

/// Whether a tree is an expression: it leaves a value.
pub open spec fn is_expression(n: NodeView) -> bool {
    !n.is_statement()
}

/// Whether a tree has an expression wherever a value is needed: as an
/// operand, on either side of an assignment, as the value that is returned
/// and as a condition.
pub open spec fn proper(n: NodeView) -> bool
    decreases n,
{
    match n {
        NodeView::Num(_) => true,
        NodeView::Lvar { .. } => true,
        NodeView::Assign { l, r } => is_expression(*l) && proper(*l) && is_expression(*r)
            && proper(*r),
        NodeView::Binary { op, l, r } => is_expression(*l) && proper(*l) && is_expression(*r)
            && proper(*r),
        NodeView::Return { expr } => is_expression(*expr) && proper(*expr),
        NodeView::If { cond, then, els } => is_expression(*cond) && proper(*cond) && proper(*then)
            && clause_proper(els),
        NodeView::While { cond, then } => is_expression(*cond) && proper(*cond) && proper(*then),
        NodeView::For { init, cond, step, then } => clause_proper(init) && clause_proper(cond)
            && (cond matches Some(c) ==> is_expression(*c)) && clause_proper(step) && proper(
            *then,
        ),
        NodeView::Block { stmts } => all_proper(stmts),
    }
}

/// Whether a clause that may be absent is proper.
pub open spec fn clause_proper(clause: Option<Box<NodeView>>) -> bool
    decreases clause,
{
    match clause {
        Some(e) => proper(*e),
        None => true,
    }
}

/// Whether every tree of a sequence is proper.
pub open spec fn all_proper(nodes: Seq<NodeView>) -> bool
    decreases nodes,
{
    forall|i: int| 0 <= i < nodes.len() ==> proper(#[trigger] nodes[i])
}

/// The value of a clause that may be absent.
pub open spec fn clause_view(clause: Option<Box<Node>>) -> Option<Box<NodeView>> {
    match clause {
        Some(e) => Some(Box::new(e@)),
        None => None,
    }
}

/// How an operator is written between its operands.
pub open spec fn op_text(op: BinOp) -> Seq<char> {
    match op {
        BinOp::Add => " + "@,
        BinOp::Sub => " - "@,
        BinOp::Mul => " * "@,
        BinOp::Div => " / "@,
        BinOp::Lt => " < "@,
        BinOp::Le => " <= "@,
        BinOp::Eq => " == "@,
        BinOp::Ne => " != "@,
    }
}

/// The text of a clause that may be absent: nothing where it is.
pub open spec fn clause_text(clause: Option<Box<NodeView>>) -> Seq<char>
    decreases clause,
{
    match clause {
        Some(e) => node_text(*e),
        None => Seq::empty(),
    }
}

/// The canonical text of a tree: every operator application in parentheses,
/// every variable with its frame slot.
pub open spec fn node_text(n: NodeView) -> Seq<char>
    decreases n,
{
    match n {
        NodeView::Num(v) => decimal(v as nat),
        NodeView::Lvar { ident, offset } => ident + "[rbp-"@ + decimal(offset) + "]"@,
        NodeView::Assign { l, r } => "("@ + node_text(*l) + " = "@ + node_text(*r) + ")"@,
        NodeView::Binary { op, l, r } => "("@ + node_text(*l) + op_text(op) + node_text(*r)
            + ")"@,
        NodeView::Return { expr } => "(return "@ + node_text(*expr) + ")"@,
        NodeView::If { cond, then, els } => "(if ("@ + node_text(*cond) + ") "@ + node_text(*then)
            + (match els {
            Some(e) => " else "@ + node_text(*e),
            None => Seq::empty(),
        }) + ")"@,
        NodeView::While { cond, then } => "(while ("@ + node_text(*cond) + ") "@ + node_text(
            *then,
        ) + ")"@,
        NodeView::For { init, cond, step, then } => "(for ("@ + clause_text(init) + "; "@
            + clause_text(cond) + "; "@ + clause_text(step) + ") "@ + node_text(*then) + ")"@,
        NodeView::Block { stmts } => "{ "@ + nodes_text(stmts) + "}"@,
    }
}

/// The canonical text of a sequence of statements: each one followed by a
/// semicolon and a space.
pub open spec fn nodes_text(nodes: Seq<NodeView>) -> Seq<char>
    decreases nodes,
{
    if nodes.len() == 0 {
        Seq::empty()
    } else {
        nodes_text(nodes.drop_last()) + node_text(nodes.last()) + "; "@
    }
}

impl Node {
    /// Appends the canonical text of the tree to `out`.
    pub fn write_to(&self, out: &mut String)
        ensures
            final(out)@ == old(out)@ + node_text(self@),
        decreases self, 1nat,
    {
        match self {
            Node::Num(n) => {
                push_decimal(out, *n as u64);
            },
            Node::Lvar(var) => {
                write_variable(var, out);
            },
            Node::Assign { l, r } => {
                self.write_infix("(", l, " = ", r, out);
            },
            Node::Add { l, r } => {
                self.write_infix("(", l, " + ", r, out);
            },
            Node::Sub { l, r } => {
                self.write_infix("(", l, " - ", r, out);
            },
            Node::Mul { l, r } => {
                self.write_infix("(", l, " * ", r, out);
            },
            Node::Div { l, r } => {
                self.write_infix("(", l, " / ", r, out);
            },
            Node::Lt { l, r } => {
                self.write_infix("(", l, " < ", r, out);
            },
            Node::Le { l, r } => {
                self.write_infix("(", l, " <= ", r, out);
            },
            Node::Eq { l, r } => {
                self.write_infix("(", l, " == ", r, out);
            },
            Node::Ne { l, r } => {
                self.write_infix("(", l, " != ", r, out);
            },
            Node::Return { expr } => {
                self.write_return(expr, out);
            },
            Node::If { cond, then, els } => {
                self.write_if(cond, then, els, out);
            },
            Node::While { cond, then } => {
                self.write_infix("(while (", cond, ") ", then, out);
            },
            Node::For { init, cond, step, then } => {
                self.write_for(init, cond, step, then, out);
            },
            Node::Block { stmts } => {
                proof {
                    lemma_block_view(*stmts);
                }
                self.write_block(stmts, out);
            },
        }
    }

    /// Appends `open`, the text of two children of `self` with `op` between
    /// them, and a closing parenthesis.
    fn write_infix(&self, open: &str, l: &Node, op: &str, r: &Node, out: &mut String)
        requires
            decreases_to!(self => l),
            decreases_to!(self => r),
        ensures
            final(out)@ == old(out)@ + (open@ + node_text(l@) + op@ + node_text(r@) + ")"@),
        decreases self, 0nat,
    {
        broadcast use lemma_text_assoc;

        out.append(open);
        l.write_to(out);
        out.append(op);
        r.write_to(out);
        out.append(")");
    }

    /// Appends the text of the `return` statement `self`.
    fn write_return(&self, expr: &Node, out: &mut String)
        requires
            decreases_to!(self => expr),
        ensures
            final(out)@ == old(out)@ + ("(return "@ + node_text(expr@) + ")"@),
        decreases self, 0nat,
    {
        broadcast use lemma_text_assoc;

        out.append("(return ");
        expr.write_to(out);
        out.append(")");
    }

    /// Appends the text of the `if` statement `self`.
    fn write_if(&self, cond: &Node, then: &Node, els: &Option<Box<Node>>, out: &mut String)
        requires
            decreases_to!(self => cond),
            decreases_to!(self => then),
            decreases_to!(self => els),
        ensures
            final(out)@ == old(out)@ + ("(if ("@ + node_text(cond@) + ") "@ + node_text(then@) + (
            match els {
                Some(e) => " else "@ + node_text(e@),
                None => Seq::empty(),
            }) + ")"@),
        decreases self, 0nat,
    {
        broadcast use lemma_text_assoc;

        out.append("(if (");
        cond.write_to(out);
        out.append(") ");
        then.write_to(out);
        Self::write_else(els, out);
        out.append(")");
    }

    /// Appends the word `else` and the text of the statement behind it, if
    /// there is one.
    fn write_else(els: &Option<Box<Node>>, out: &mut String)
        ensures
            final(out)@ == old(out)@ + (match els {
                Some(e) => " else "@ + node_text(e@),
                None => Seq::empty(),
            }),
        decreases els, 0nat,
    {
        broadcast use lemma_text_assoc, lemma_text_empty;

        match els {
            Some(e) => {
                out.append(" else ");
                e.write_to(out);
            },
            None => {},
        }
    }

    /// Appends the text of the `for` statement `self`.
    fn write_for(
        &self,
        init: &Option<Box<Node>>,
        cond: &Option<Box<Node>>,
        step: &Option<Box<Node>>,
        then: &Node,
        out: &mut String,
    )
        requires
            decreases_to!(self => init),
            decreases_to!(self => cond),
            decreases_to!(self => step),
            decreases_to!(self => then),
        ensures
            final(out)@ == old(out)@ + ("(for ("@ + clause_text(clause_view(*init)) + "; "@
                + clause_text(clause_view(*cond)) + "; "@ + clause_text(clause_view(*step)) + ") "@
                + node_text(then@) + ")"@),
        decreases self, 0nat,
    {
        broadcast use lemma_text_assoc, lemma_text_empty;

        out.append("(for (");
        Self::write_clause(init, out);
        out.append("; ");
        Self::write_clause(cond, out);
        out.append("; ");
        Self::write_clause(step, out);
        out.append(") ");
        then.write_to(out);
        out.append(")");
    }

    /// Appends the text of a clause that may be absent.
    fn write_clause(clause: &Option<Box<Node>>, out: &mut String)
        ensures
            final(out)@ == old(out)@ + clause_text(clause_view(*clause)),
        decreases clause, 0nat,
    {
        broadcast use lemma_text_empty;

        match clause {
            Some(e) => {
                e.write_to(out);
            },
            None => {},
        }
    }

    /// Appends the text of the block `self`, whose statements are `stmts`.
    fn write_block(&self, stmts: &Vec<Box<Node>>, out: &mut String)
        requires
            decreases_to!(self => stmts),
        ensures
            final(out)@ == old(out)@ + ("{ "@ + nodes_text(node_views(stmts@)) + "}"@),
        decreases self, 0nat,
    {
        broadcast use lemma_text_assoc, lemma_text_empty;

        let ghost before = out@;
        out.append("{ ");
        let ghost views = node_views(stmts@);
        let mut i: usize = 0;
        proof {
            assert(views.take(0) =~= Seq::<NodeView>::empty());
        }
        while i < stmts.len()
            invariant
                i <= stmts.len(),
                views == node_views(stmts@),
                decreases_to!(self => stmts),
                out@ == before + "{ "@ + nodes_text(views.take(i as int)),
            decreases stmts.len() - i,
        {
            stmts[i].write_to(out);
            out.append("; ");
            proof {
                assert(views.take(i + 1).drop_last() =~= views.take(i as int));
                assert(views.take(i + 1).last() == stmts[i as int]@);
            }
            i = i + 1;
        }
        proof {
            assert(views.take(i as int) =~= views);
        }
        out.append("}");
    }

    /// The canonical text of the tree.
    pub fn to_string(&self) -> (s: String)
        ensures
            s@ == node_text(self@),
    {
        broadcast use lemma_text_empty;

        let mut s = String::new();
        self.write_to(&mut s);
        s
    }
}

/// Appends the text of a variable: its name and its frame slot.
fn write_variable(var: &LocalVar, out: &mut String)
    ensures
        final(out)@ == old(out)@ + (var.ident@ + "[rbp-"@ + decimal(var.offset as nat) + "]"@),
{
    broadcast use lemma_text_assoc;

    out.append(var.ident.as_str());
    out.append("[rbp-");
    push_decimal(out, var.offset as u64);
    out.append("]");
}

impl Nodes {
    /// The canonical text of the program: each top-level statement followed
    /// by a semicolon and a space.
    pub fn to_string(&self) -> (s: String)
        ensures
            s@ == nodes_text(self@),
    {
        broadcast use lemma_text_assoc, lemma_text_empty;

        let mut s = String::new();
        let ghost views = self@;
        let mut i: usize = 0;
        proof {
            assert(views.take(0) =~= Seq::<NodeView>::empty());
        }
        while i < self.0.len()
            invariant
                i <= self.0.len(),
                views == node_views(self.0@),
                s@ == nodes_text(views.take(i as int)),
            decreases self.0.len() - i,
        {
            self.0[i].write_to(&mut s);
            s.append("; ");
            proof {
                assert(views.take(i + 1).drop_last() =~= views.take(i as int));
                assert(views.take(i + 1).last() == self.0[i as int]@);
            }
            i = i + 1;
        }
        proof {
            assert(views.take(i as int) =~= views);
        }
        s
    }
}

impl Node {
    /// The operator and the two operands of a tree that applies one of the
    /// eight operators of [`BinOp`].
    pub fn as_binary(&self) -> (parts: Option<(BinOp, &Node, &Node)>)
        ensures
            match parts {
                Some((op, l, r)) => {
                    &&& self@ == NodeView::binary(op, l@, r@)
                    &&& decreases_to!(self => l)
                    &&& decreases_to!(self => r)
                },
                None => !(self@ is Binary),
            },
    {
        match self {
            Node::Add { l, r } => Some((BinOp::Add, &**l, &**r)),
            Node::Sub { l, r } => Some((BinOp::Sub, &**l, &**r)),
            Node::Mul { l, r } => Some((BinOp::Mul, &**l, &**r)),
            Node::Div { l, r } => Some((BinOp::Div, &**l, &**r)),
            Node::Lt { l, r } => Some((BinOp::Lt, &**l, &**r)),
            Node::Le { l, r } => Some((BinOp::Le, &**l, &**r)),
            Node::Eq { l, r } => Some((BinOp::Eq, &**l, &**r)),
            Node::Ne { l, r } => Some((BinOp::Ne, &**l, &**r)),
            _ => None,
        }
    }

    /// Whether the tree is a statement form: `return`, `if`, `while`, `for`
    /// or a block.
    pub fn is_statement(&self) -> (r: bool)
        ensures
            r == self@.is_statement(),
    {
        match self {
            Node::Return { .. } | Node::If { .. } | Node::While { .. } | Node::For { .. }
            | Node::Block { .. } => true,
            _ => false,
        }
    }
}

} // verus!
