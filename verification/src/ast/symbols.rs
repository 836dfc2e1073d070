//! The symbol table: which frame slot a variable has.
//!
//! The table is the sequence of the names met so far, in order of first
//! appearance. The variable at index `i` lives `(i + 1) * 8` bytes below the
//! frame base, so a name keeps its slot for good and no two names share one.
use crate::ast::node::NodeView;
use vstd::prelude::*;

verus! {

/// The size of a variable's slot in the frame, in bytes.
pub const LOCAL_VAR_OFFSET: usize = 8;

/// The index of the first occurrence of `name` in `names`, or the length of
/// `names` where it does not occur.
pub open spec fn lookup(names: Seq<Seq<char>>, name: Seq<char>) -> nat
    decreases names.len(),
{
    if names.len() == 0 {
        0
    } else if names.first() == name {
        0
    } else {
        1 + lookup(names.drop_first(), name)
    }
}

/// The names after `name` has been met: a new name goes to the end.
pub open spec fn resolve(names: Seq<Seq<char>>, name: Seq<char>) -> Seq<Seq<char>> {
    if lookup(names, name) < names.len() {
        names
    } else {
        names.push(name)
    }
}

/// The frame offset of the variable that was the `index`-th to appear,
/// counting from zero.
pub open spec fn slot_offset(index: nat) -> nat {
    (index + 1) * LOCAL_VAR_OFFSET as nat
}

/// The tree for a use of the variable `name`.
pub open spec fn variable(names: Seq<Seq<char>>, name: Seq<char>) -> NodeView {
    NodeView::Lvar { ident: name, offset: slot_offset(lookup(names, name)) }
}

/// Whether the table `later` is `names` with nothing or something added at
/// its end.
#[verifier::opaque]
pub open spec fn extends(later: Seq<Seq<char>>, names: Seq<Seq<char>>) -> bool {
    names.is_prefix_of(later)
}

/// A table extends itself.
pub proof fn lemma_extends_itself(names: Seq<Seq<char>>)
    ensures
        extends(names, names),
{
    reveal(extends);
}

/// What extends an extension of a table extends the table.
pub proof fn lemma_extends_transitive(
    names: Seq<Seq<char>>,
    later: Seq<Seq<char>>,
    latest: Seq<Seq<char>>,
)
    requires
        extends(later, names),
        extends(latest, later),
    ensures
        extends(latest, names),
{
    reveal(extends);
    assert forall|i: int| 0 <= i < names.len() implies names[i] == latest[i] by {
        assert(names[i] == later[i]);
        assert(later[i] == latest[i]);
    }
}

/// Where a scan from the front finds `name`: at an index that holds it and
/// behind which it was not met, or nowhere.
pub proof fn lemma_lookup(names: Seq<Seq<char>>, name: Seq<char>)
    ensures
        lookup(names, name) <= names.len(),
        lookup(names, name) < names.len() ==> names[lookup(names, name) as int] == name,
        forall|i: int| 0 <= i < lookup(names, name) ==> names[i] != name,
        lookup(names, name) == names.len() <==> !names.contains(name),
    decreases names.len(),
{
    if names.len() > 0 {
        lemma_lookup(names.drop_first(), name);
        assert forall|i: int| 0 <= i < lookup(names, name) implies names[i] != name by {
            if i > 0 {
                assert(names.drop_first()[i - 1] == names[i]);
            }
        }
        if names.first() != name && lookup(names, name) < names.len() {
            assert(names.drop_first()[lookup(names, name) - 1] == names[lookup(names, name) as int]);
        }
        if lookup(names, name) == names.len() {
            assert forall|i: int| 0 <= i < names.len() implies names[i] != name by {}
        }
    }
}

/// In a table without duplicates a name is found at its index.
pub proof fn lemma_lookup_at(names: Seq<Seq<char>>, i: int)
    requires
        names.no_duplicates(),
        0 <= i < names.len(),
    ensures
        lookup(names, names[i]) == i,
{
    lemma_lookup(names, names[i]);
}

/// Meeting a name keeps the table free of duplicates, only ever adds at the
/// end, and leaves the name in the table.
pub proof fn lemma_resolve(names: Seq<Seq<char>>, name: Seq<char>)
    requires
        names.no_duplicates(),
    ensures
        resolve(names, name).no_duplicates(),
        extends(resolve(names, name), names),
        names.len() <= resolve(names, name).len() <= names.len() + 1,
        resolve(names, name).contains(name),
        lookup(resolve(names, name), name) == lookup(names, name),
{
    reveal(extends);
    lemma_lookup(names, name);
    let after = resolve(names, name);
    if lookup(names, name) < names.len() {
        assert(names.is_prefix_of(names));
    } else {
        assert(after[names.len() as int] == name);
        assert(names.is_prefix_of(after));
        lemma_lookup(after, name);
    }
}

/// A name that is in the table stays where it is whatever is met later: the
/// table only grows at the end.
pub proof fn lemma_lookup_stable(names: Seq<Seq<char>>, later: Seq<Seq<char>>, name: Seq<char>)
    requires
        extends(later, names),
        names.contains(name),
    ensures
        lookup(later, name) == lookup(names, name),
        variable(later, name) == variable(names, name),
{
    reveal(extends);
    lemma_lookup(names, name);
    lemma_lookup(later, name);
    let i = lookup(names, name) as int;
    let j = lookup(later, name) as int;
    assert(later[i] == names[i]);
    if j < i {
        assert(names[j] == later[j]);
    }
}

/// The frame offsets of the variables rise with the order of first
/// appearance: a variable met earlier lies nearer to the frame base, and no
/// two variables share an offset.
pub proof fn lemma_offsets_increase(names: Seq<Seq<char>>, i: int, j: int)
    requires
        names.no_duplicates(),
        0 <= i < j < names.len(),
    ensures
        variable(names, names[i])->offset == slot_offset(i as nat),
        variable(names, names[j])->offset == slot_offset(j as nat),
        variable(names, names[i])->offset + LOCAL_VAR_OFFSET <= variable(names, names[j])->offset,
{
    lemma_lookup_at(names, i);
    lemma_lookup_at(names, j);
}

/// A name that is met again has the offset that it had the first time,
/// whatever other name was met in between.
pub proof fn lemma_reuse_keeps_offset(names: Seq<Seq<char>>, name: Seq<char>, other: Seq<char>)
    requires
        names.no_duplicates(),
    ensures
        variable(resolve(names, name), name) == variable(names, name),
        variable(resolve(resolve(names, name), other), name) == variable(names, name),
{
    lemma_resolve(names, name);
    let first = resolve(names, name);
    lemma_resolve(first, other);
    lemma_lookup_stable(first, resolve(first, other), name);
}

/// Two names have the same offset only if they are the same name.
pub proof fn lemma_offsets_unique(names: Seq<Seq<char>>, a: Seq<char>, b: Seq<char>)
    requires
        names.contains(a),
        names.contains(b),
        variable(names, a)->offset == variable(names, b)->offset,
    ensures
        a == b,
{
    lemma_lookup(names, a);
    lemma_lookup(names, b);
}

/// Whether every variable in a tree has the slot of its name in the table
/// `names`.
pub open spec fn bound(n: NodeView, names: Seq<Seq<char>>) -> bool
    decreases n,
{
    match n {
        NodeView::Num(_) => true,
        NodeView::Lvar { ident, offset } => names.contains(ident) && offset == slot_offset(
            lookup(names, ident),
        ),
        NodeView::Assign { l, r } => bound(*l, names) && bound(*r, names),
        NodeView::Binary { op, l, r } => bound(*l, names) && bound(*r, names),
        NodeView::Return { expr } => bound(*expr, names),
        NodeView::If { cond, then, els } => bound(*cond, names) && bound(*then, names)
            && clause_bound(els, names),
        NodeView::While { cond, then } => bound(*cond, names) && bound(*then, names),
        NodeView::For { init, cond, step, then } => clause_bound(init, names) && clause_bound(
            cond,
            names,
        ) && clause_bound(step, names) && bound(*then, names),
        NodeView::Block { stmts } => all_bound(stmts, names),
    }
}

/// Whether every variable in a clause that may be absent has the slot of its
/// name in the table.
pub open spec fn clause_bound(clause: Option<Box<NodeView>>, names: Seq<Seq<char>>) -> bool
    decreases clause,
{
    match clause {
        Some(e) => bound(*e, names),
        None => true,
    }
}

/// Whether every variable in a sequence of trees has the slot of its name in
/// the table.
pub open spec fn all_bound(nodes: Seq<NodeView>, names: Seq<Seq<char>>) -> bool
    decreases nodes,
{
    forall|i: int| 0 <= i < nodes.len() ==> bound(#[trigger] nodes[i], names)
}

/// A tree whose variables have their slots in a table has them in every
/// table that the first one grows into.
pub proof fn lemma_bound_stable(n: NodeView, names: Seq<Seq<char>>, later: Seq<Seq<char>>)
    requires
        bound(n, names),
        extends(later, names),
    ensures
        bound(n, later),
    decreases n,
{
    match n {
        NodeView::Num(_) => {},
        NodeView::Lvar { ident, offset } => {
            reveal(extends);
            lemma_lookup_stable(names, later, ident);
            lemma_lookup(names, ident);
            lemma_lookup(later, ident);
        },
        NodeView::Assign { l, r } => {
            lemma_bound_stable(*l, names, later);
            lemma_bound_stable(*r, names, later);
        },
        NodeView::Binary { op, l, r } => {
            lemma_bound_stable(*l, names, later);
            lemma_bound_stable(*r, names, later);
        },
        NodeView::Return { expr } => {
            lemma_bound_stable(*expr, names, later);
        },
        NodeView::If { cond, then, els } => {
            lemma_bound_stable(*cond, names, later);
            lemma_bound_stable(*then, names, later);
            lemma_clause_bound_stable(els, names, later);
        },
        NodeView::While { cond, then } => {
            lemma_bound_stable(*cond, names, later);
            lemma_bound_stable(*then, names, later);
        },
        NodeView::For { init, cond, step, then } => {
            lemma_clause_bound_stable(init, names, later);
            lemma_clause_bound_stable(cond, names, later);
            lemma_clause_bound_stable(step, names, later);
            lemma_bound_stable(*then, names, later);
        },
        NodeView::Block { stmts } => {
            lemma_all_bound_stable(stmts, names, later);
        },
    }
}

/// The same for a clause that may be absent.
pub proof fn lemma_clause_bound_stable(
    clause: Option<Box<NodeView>>,
    names: Seq<Seq<char>>,
    later: Seq<Seq<char>>,
)
    requires
        clause_bound(clause, names),
        extends(later, names),
    ensures
        clause_bound(clause, later),
    decreases clause,
{
    match clause {
        Some(e) => {
            lemma_bound_stable(*e, names, later);
        },
        None => {},
    }
}

/// The same for a sequence of trees.
pub proof fn lemma_all_bound_stable(
    nodes: Seq<NodeView>,
    names: Seq<Seq<char>>,
    later: Seq<Seq<char>>,
)
    requires
        all_bound(nodes, names),
        extends(later, names),
    ensures
        all_bound(nodes, later),
    decreases nodes,
{
    assert forall|i: int| 0 <= i < nodes.len() implies bound(#[trigger] nodes[i], later) by {
        lemma_bound_stable(nodes[i], names, later);
    }
}

} // verus!
