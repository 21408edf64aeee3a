//! What is visible at a node, by the place of the node in the tree.
//!
//! A function is walked from its body inwards. The walk enters the blocks
//! of conditionals, of loops with a condition and of block expressions, and
//! the expressions that stand in these blocks. It enters no other block: the
//! body of a loop over an iterator, for one, is not walked. And it does not
//! enter an initializer.
//! The expressions of the statements of a walked block, the initializers of
//! its declarations and its trailing expression bound a scope: what is
//! visible at any node is what the nearest such expression around it sees.
//!
//! The scopes that are built for a function say the same: see
//! `scope_proofs`.

use crate::scope_proofs::{
    lemma_fn_scopes, lemma_lets_within, lemma_marks, lemma_visible_in, lemma_visible_is_env,
    lemma_visible_root, nodes_outside, own_bindings_hidden, sees_outside,
};
use crate::scopes::{fn_scopes, scope_chain, scope_of};
use crate::syntax::{
    first_child, lemma_child_parent, lemma_children_disjoint, lemma_nested, lemma_nth_child,
    lemma_second_sibling, nth_child, wf_node, wf_nodes, KindClass, SyntaxKind, SyntaxNode,
};
use vstd::prelude::*;

verus! {

/// A name introduced by a pattern: the binding node and its text.
#[verifier::ext_equal]
pub struct Binding {
    pub node: usize,
    pub name: Seq<char>,
}

/// The binding that a node introduces: a `BindPat` with a `Name` child.
/// Patterns without a name introduce nothing.
pub open spec fn binding_of(s: Seq<SyntaxNode>, node: usize) -> Option<Binding> {
    if node < s.len() && s[node as int].kind == SyntaxKind::BindPat {
        match first_child(s, node, KindClass::Kind(SyntaxKind::Name)) {
            Some(n) => Some(Binding { node, name: s[n as int].text@ }),
            None => None,
        }
    } else {
        None
    }
}

/// The bindings of the nodes `from .. to`, in index order.
pub open spec fn bindings_in(s: Seq<SyntaxNode>, from: usize, to: usize) -> Seq<Binding>
    decreases to,
{
    if to <= from {
        Seq::empty()
    } else {
        match binding_of(s, (to - 1) as usize) {
            Some(b) => bindings_in(s, from, (to - 1) as usize).push(b),
            None => bindings_in(s, from, (to - 1) as usize),
        }
    }
}

/// The bindings that a pattern introduces, in source order.
pub open spec fn pat_bindings(s: Seq<SyntaxNode>, pat: usize) -> Seq<Binding> {
    if pat < s.len() {
        bindings_in(s, pat, s[pat as int].end)
    } else {
        Seq::empty()
    }
}

/// The bindings that the declaration `stmt` introduces.
pub open spec fn let_bindings(s: Seq<SyntaxNode>, stmt: usize) -> Seq<Binding> {
    match first_child(s, stmt, KindClass::Pat) {
        Some(p) => pat_bindings(s, p),
        None => Seq::empty(),
    }
}

/// The bindings of the declarations among the siblings that start at index
/// `c` and lie before `upto`, those of the last declaration first.
pub open spec fn lets_before(s: Seq<SyntaxNode>, c: usize, end: usize, upto: usize) -> Seq<Binding>
    decreases s.len() - c,
{
    if c >= end || end > s.len() || s[c as int].end <= c || s[c as int].end > end || c >= upto {
        Seq::empty()
    } else if s[c as int].kind == SyntaxKind::LetStmt {
        lets_before(s, s[c as int].end, end, upto) + let_bindings(s, c)
    } else {
        lets_before(s, s[c as int].end, end, upto)
    }
}

/// The bindings of the declarations of the block `block` that stand before
/// its child `upto`, those of the last declaration first.
pub open spec fn block_lets(s: Seq<SyntaxNode>, block: usize, upto: usize) -> Seq<Binding> {
    if block < s.len() && block < usize::MAX {
        lets_before(s, (block + 1) as usize, s[block as int].end, upto)
    } else {
        Seq::empty()
    }
}

/// The bindings that the condition of the conditional or loop `e`
/// introduces for the body that it guards.
pub open spec fn guard_bindings(s: Seq<SyntaxNode>, e: usize) -> Seq<Binding> {
    match first_child(s, e, KindClass::Kind(SyntaxKind::Condition)) {
        Some(c) => match first_child(s, c, KindClass::Pat) {
            Some(p) => pat_bindings(s, p),
            None => Seq::empty(),
        },
        None => Seq::empty(),
    }
}

/// The bindings of the parameters that start at index `c` and lie before
/// `end`, in order.
pub open spec fn params_bindings(s: Seq<SyntaxNode>, c: usize, end: usize) -> Seq<Binding>
    decreases s.len() - c,
{
    if c >= end || end > s.len() || s[c as int].end <= c || s[c as int].end > end {
        Seq::empty()
    } else if s[c as int].kind == SyntaxKind::Param {
        match first_child(s, c, KindClass::Pat) {
            Some(p) => pat_bindings(s, p) + params_bindings(s, s[c as int].end, end),
            None => params_bindings(s, s[c as int].end, end),
        }
    } else {
        params_bindings(s, s[c as int].end, end)
    }
}

/// The bindings that the parameters of a function introduce.
pub open spec fn fn_params(s: Seq<SyntaxNode>, fn_def: usize) -> Seq<Binding> {
    match first_child(s, fn_def, KindClass::Kind(SyntaxKind::ParamList)) {
        Some(l) => if l < s.len() && l < usize::MAX {
            params_bindings(s, (l + 1) as usize, s[l as int].end)
        } else {
            Seq::empty()
        },
        None => Seq::empty(),
    }
}

/// What is visible where the block `b` starts, in the function `fn_def`.
///
/// The body of the function starts with the parameters. The first block of a
/// conditional and the body of a loop with a condition start with the
/// bindings of the condition and then what the conditional or loop sees. The
/// second block of a conditional, and the block of a block expression, start
/// with what the expression itself sees.
pub open spec fn block_env(s: Seq<SyntaxNode>, fn_def: usize, b: usize) -> Seq<Binding>
    decreases b,
{
    let block = KindClass::Kind(SyntaxKind::Block);
    if b >= s.len() {
        Seq::empty()
    } else {
        match s[b as int].parent {
            Some(p) if p < b => {
                let kind = s[p as int].kind;
                if p == fn_def && first_child(s, p, block) == Some(b) {
                    fn_params(s, fn_def)
                } else if (kind == SyntaxKind::IfExpr || kind == SyntaxKind::WhileExpr)
                    && nth_child(s, p, block, 0) == Some(b) {
                    guard_bindings(s, p) + expr_env(s, fn_def, p)
                } else if kind == SyntaxKind::IfExpr && nth_child(s, p, block, 1) == Some(b) {
                    expr_env(s, fn_def, p)
                } else if kind == SyntaxKind::BlockExpr && first_child(s, p, block) == Some(b) {
                    expr_env(s, fn_def, p)
                } else {
                    Seq::empty()
                }
            },
            _ => Seq::empty(),
        }
    }
}

/// Whether an expression of this kind has no scopes of its own: it is
/// neither a conditional nor a loop with a condition nor a block.
pub open spec fn is_plain_expr(kind: SyntaxKind) -> bool {
    kind.spec_is_expr() && kind != SyntaxKind::IfExpr && kind != SyntaxKind::WhileExpr && kind
        != SyntaxKind::BlockExpr
}

/// What the expression `e` sees, in the function `fn_def`.
///
/// The expression of a statement and the initializer of a declaration see
/// the declarations of their block that stand before the statement, the last
/// one first, and then what is visible where the block starts. The trailing
/// expression of a block sees all declarations of the block in that way. The
/// expression of a condition sees what the conditional or loop sees, and an
/// expression directly inside a plain expression sees what that one sees.
pub open spec fn expr_env(s: Seq<SyntaxNode>, fn_def: usize, e: usize) -> Seq<Binding>
    decreases e,
{
    if e >= s.len() {
        Seq::empty()
    } else {
        match s[e as int].parent {
            Some(p) if p < e => {
                let kind = s[p as int].kind;
                let first = first_child(s, p, KindClass::Expr) == Some(e);
                if kind == SyntaxKind::Block && first {
                    block_lets(s, p, s[p as int].end) + block_env(s, fn_def, p)
                } else if (kind == SyntaxKind::ExprStmt || kind == SyntaxKind::LetStmt) && first {
                    match s[p as int].parent {
                        Some(b) if b < p => block_lets(s, b, p) + block_env(s, fn_def, b),
                        _ => Seq::empty(),
                    }
                } else if kind == SyntaxKind::Condition && first {
                    match s[p as int].parent {
                        Some(g) if g < p => expr_env(s, fn_def, g),
                        _ => Seq::empty(),
                    }
                } else if is_plain_expr(kind) && s[e as int].kind.spec_is_expr() {
                    expr_env(s, fn_def, p)
                } else {
                    Seq::empty()
                }
            },
            _ => Seq::empty(),
        }
    }
}

/// Whether the walk over the function `fn_def` walks the block `b`: it is
/// the body of the function, or a block of a conditional, of a loop with a
/// condition or of a block expression that the walk walks, in the place
/// where such an expression has its blocks.
pub open spec fn block_walked(s: Seq<SyntaxNode>, fn_def: usize, b: usize) -> bool
    decreases b,
{
    let block = KindClass::Kind(SyntaxKind::Block);
    b < s.len() && s[b as int].kind == SyntaxKind::Block && match s[b as int].parent {
        Some(p) if p < b => {
            let kind = s[p as int].kind;
            if p == fn_def {
                first_child(s, p, block) == Some(b)
            } else if (kind == SyntaxKind::IfExpr || kind == SyntaxKind::WhileExpr) && nth_child(
                s,
                p,
                block,
                0,
            ) == Some(b) {
                expr_walked(s, fn_def, p)
            } else if kind == SyntaxKind::IfExpr && nth_child(s, p, block, 1) == Some(b) {
                expr_walked(s, fn_def, p)
            } else if kind == SyntaxKind::BlockExpr && first_child(s, p, block) == Some(b) {
                expr_walked(s, fn_def, p)
            } else {
                false
            }
        },
        _ => false,
    }
}

/// Whether the walk over the function `fn_def` walks the expression `e`:
/// it is the expression of an expression statement or the trailing
/// expression of a block that is walked, the expression of the condition of
/// a conditional or loop that is walked, or an expression directly inside a
/// plain expression that is walked. The initializer of a declaration is not
/// walked.
pub open spec fn expr_walked(s: Seq<SyntaxNode>, fn_def: usize, e: usize) -> bool
    decreases e,
{
    fn_def < e < s.len() && s[e as int].kind.spec_is_expr() && match s[e as int].parent {
        Some(p) if p < e => {
            let kind = s[p as int].kind;
            let first = first_child(s, p, KindClass::Expr) == Some(e);
            if kind == SyntaxKind::Block {
                first && block_walked(s, fn_def, p)
            } else if kind == SyntaxKind::ExprStmt {
                first && match s[p as int].parent {
                    Some(b) if b < p => block_walked(s, fn_def, b),
                    _ => false,
                }
            } else if kind == SyntaxKind::Condition {
                first && match s[p as int].parent {
                    Some(g) if g < p => (s[g as int].kind == SyntaxKind::IfExpr || s[g as int].kind
                        == SyntaxKind::WhileExpr) && first_child(
                        s,
                        g,
                        KindClass::Kind(SyntaxKind::Condition),
                    ) == Some(p) && expr_walked(s, fn_def, g),
                    _ => false,
                }
            } else {
                is_plain_expr(kind) && expr_walked(s, fn_def, p)
            }
        },
        _ => false,
    }
}

/// Whether the node `n` bounds a scope in the function `fn_def`: it is the
/// expression of a statement, the initializer of a declaration or the
/// trailing expression, of a block that the walk over the function walks.
pub open spec fn bounds_scope(s: Seq<SyntaxNode>, fn_def: usize, n: usize) -> bool {
    n < s.len() && match s[n as int].parent {
        Some(p) if p < n => {
            let kind = s[p as int].kind;
            first_child(s, p, KindClass::Expr) == Some(n) && if kind == SyntaxKind::Block {
                block_walked(s, fn_def, p)
            } else if kind == SyntaxKind::ExprStmt || kind == SyntaxKind::LetStmt {
                match s[p as int].parent {
                    Some(b) if b < p => block_walked(s, fn_def, b),
                    _ => false,
                }
            } else {
                false
            }
        },
        _ => false,
    }
}

/// The nearest node among `node` and its ancestors that bounds a scope in
/// the function `fn_def`.
pub open spec fn boundary_of(s: Seq<SyntaxNode>, fn_def: usize, node: usize) -> Option<usize>
    decreases node,
{
    if bounds_scope(s, fn_def, node) {
        Some(node)
    } else if node < s.len() {
        match s[node as int].parent {
            Some(p) if p < node => boundary_of(s, fn_def, p),
            _ => None,
        }
    } else {
        None
    }
}

/// The names that are visible at `node` in the function `fn_def`, the
/// nearest first: what the nearest node sees that bounds a scope, and
/// nothing where there is no such node.
pub open spec fn visible_in(s: Seq<SyntaxNode>, fn_def: usize, node: usize) -> Seq<Binding> {
    match boundary_of(s, fn_def, node) {
        Some(n) => expr_env(s, fn_def, n),
        None => Seq::empty(),
    }
}

/// Whether `e` is the expression that stands at `upto` in the block `b`:
/// the expression of the statement `upto`, or, where `upto` is the end of
/// the block, the trailing expression of the block.
pub open spec fn is_block_expr(s: Seq<SyntaxNode>, b: usize, upto: usize, e: usize) -> bool {
    b < s.len() && if upto == s[b as int].end {
        first_child(s, b, KindClass::Expr) == Some(e)
    } else {
        &&& upto < s.len()
        &&& s[upto as int].parent == Some(b)
        &&& s[upto as int].kind.spec_is_stmt()
        &&& first_child(s, upto, KindClass::Expr) == Some(e)
    }
}

/// Every parameter of the function is visible at every node that has a
/// scope, after all else that is visible there, and the scope chain of such
/// a node ends at the root scope.
///
/// A node has a scope where it or one of its ancestors bounds one: the
/// nodes of the expressions that the walk over the body reaches. A node
/// without a scope, such as the pattern of a declaration in the body
/// itself, sees nothing.
pub proof fn lemma_parameters_visible(s: Seq<SyntaxNode>, fn_def: usize, node: usize, i: int)
    requires
        wf_nodes(s),
        fn_def < s.len(),
        boundary_of(s, fn_def, node) is Some,
        0 <= i < fn_params(s, fn_def).len(),
    ensures
        visible_in(s, fn_def, node).contains(fn_params(s, fn_def)[i]),
        visible_in(s, fn_def, node).len() >= fn_params(s, fn_def).len(),
        visible_in(s, fn_def, node)[visible_in(s, fn_def, node).len() - fn_params(s, fn_def).len()
            + i] == fn_params(s, fn_def)[i],
        scope_chain(s, fn_scopes(s, fn_def), node).len() > 0,
        scope_chain(s, fn_scopes(s, fn_def), node).last() == 0,
{
    let m = fn_scopes(s, fn_def);
    lemma_fn_scopes(s, fn_def);
    lemma_visible_in(s, fn_def, node);
    crate::scopes::lemma_scope_of_is_a_mark(s, m.scope_for, node);
    let x = scope_of(s, m.scope_for, node)->0;
    lemma_visible_root(m, x);
    let v = m.visible_from(x);
    assert(v[v.len() - m.scopes[0].entries.len() + i] == m.scopes[0].entries[i]);
}

/// What an expression in a block sees. At the expression that stands at
/// `upto` in a block that is walked, the declarations of the block that
/// stand before it are visible, the last one first, and then what is
/// visible where the block starts. So of two declarations of one name the
/// later one comes first, and a declaration that follows the expression is
/// not visible at it.
pub proof fn lemma_block_expr_sees(
    s: Seq<SyntaxNode>,
    fn_def: usize,
    b: usize,
    upto: usize,
    x: usize,
)
    requires
        wf_nodes(s),
        block_walked(s, fn_def, b),
        is_block_expr(s, b, upto, x),
    ensures
        bounds_scope(s, fn_def, x),
        visible_in(s, fn_def, x) == block_lets(s, b, upto) + block_env(s, fn_def, b),
{
    assert(wf_node(s, 0));
    assert(wf_node(s, b as int));
    if upto == s[b as int].end {
        lemma_nth_child(s, b, KindClass::Expr, 0);
        lemma_child_parent(s, b, KindClass::Expr, 0);
    } else {
        assert(wf_node(s, upto as int));
        lemma_nth_child(s, upto, KindClass::Expr, 0);
        lemma_child_parent(s, upto, KindClass::Expr, 0);
    }
}

/// An expression that the walk walks sees what the node sees that bounds
/// its scope.
pub proof fn lemma_walked_sees(s: Seq<SyntaxNode>, fn_def: usize, e: usize)
    requires
        wf_nodes(s),
        expr_walked(s, fn_def, e),
    ensures
        boundary_of(s, fn_def, e) is Some,
        visible_in(s, fn_def, e) == expr_env(s, fn_def, e),
    decreases e,
{
    assert(wf_node(s, e as int));
    let p = s[e as int].parent->0;
    let kind = s[p as int].kind;
    if kind == SyntaxKind::Block || kind == SyntaxKind::ExprStmt {
        assert(bounds_scope(s, fn_def, e));
    } else if kind == SyntaxKind::Condition {
        let g = s[p as int].parent->0;
        lemma_walked_sees(s, fn_def, g);
        assert(!bounds_scope(s, fn_def, e));
        assert(!bounds_scope(s, fn_def, p)) by {
            if bounds_scope(s, fn_def, p) {
                lemma_nth_child(s, g, KindClass::Expr, 0);
            }
        }
    } else {
        lemma_walked_sees(s, fn_def, p);
        assert(!bounds_scope(s, fn_def, e));
    }
}

/// The bindings of a condition are visible in the block that the condition
/// guards. At an expression in the first block of a conditional, or in the
/// body of a loop with a condition, the declarations of the block before it
/// are visible, then the bindings of the condition, and then what the
/// conditional or loop itself sees.
pub proof fn lemma_condition_binds(
    s: Seq<SyntaxNode>,
    fn_def: usize,
    e: usize,
    block: usize,
    upto: usize,
    x: usize,
)
    requires
        wf_nodes(s),
        expr_walked(s, fn_def, e),
        s[e as int].kind == SyntaxKind::IfExpr || s[e as int].kind == SyntaxKind::WhileExpr,
        nth_child(s, e, KindClass::Kind(SyntaxKind::Block), 0) == Some(block),
        is_block_expr(s, block, upto, x),
    ensures
        visible_in(s, fn_def, x) == block_lets(s, block, upto) + (guard_bindings(s, e)
            + visible_in(s, fn_def, e)),
{
    let kind = KindClass::Kind(SyntaxKind::Block);
    lemma_nth_child(s, e, kind, 0);
    lemma_child_parent(s, e, kind, 0);
    lemma_walked_sees(s, fn_def, e);
    assert(block_walked(s, fn_def, block));
    lemma_block_expr_sees(s, fn_def, block, upto, x);
}

/// The bindings of a condition are not visible in the second block of a
/// conditional. At an expression in that block, the declarations of the
/// block before it are visible and then what the conditional itself sees;
/// nothing of this comes from the condition.
pub proof fn lemma_else_sees_no_condition(
    s: Seq<SyntaxNode>,
    fn_def: usize,
    e: usize,
    block: usize,
    upto: usize,
    x: usize,
)
    requires
        wf_nodes(s),
        fn_def < s.len(),
        expr_walked(s, fn_def, e),
        s[e as int].kind == SyntaxKind::IfExpr,
        nth_child(s, e, KindClass::Kind(SyntaxKind::Block), 1) == Some(block),
        is_block_expr(s, block, upto, x),
    ensures
        visible_in(s, fn_def, x) == block_lets(s, block, upto) + visible_in(s, fn_def, e),
        first_child(s, e, KindClass::Kind(SyntaxKind::Condition)) matches Some(c) ==> nodes_outside(
            visible_in(s, fn_def, x),
            c as int,
            s[c as int].end as int,
        ),
{
    let kind = KindClass::Kind(SyntaxKind::Block);
    let condition = KindClass::Kind(SyntaxKind::Condition);
    assert(wf_node(s, 0));
    assert(wf_node(s, e as int));
    lemma_second_sibling(s, (e + 1) as usize, s[e as int].end, kind);
    lemma_nth_child(s, e, kind, 1);
    lemma_child_parent(s, e, kind, 1);
    lemma_nested(s, e as int, block as int);
    lemma_walked_sees(s, fn_def, e);
    assert(block_walked(s, fn_def, block));
    lemma_block_expr_sees(s, fn_def, block, upto, x);
    let seen = visible_in(s, fn_def, x);
    let lets = block_lets(s, block, upto);
    let outer = visible_in(s, fn_def, e);
    assert(seen == lets + outer);
    match first_child(s, e, condition) {
        Some(c) => {
            lemma_nth_child(s, e, condition, 0);
            lemma_child_parent(s, e, condition, 0);
            lemma_nested(s, e as int, c as int);
            if c < block {
                lemma_children_disjoint(s, c, block);
            } else {
                lemma_children_disjoint(s, block, c);
            }
            lemma_lets_within(s, (block + 1) as usize, s[block as int].end, upto);
            lemma_boundary_encloses(s, fn_def, e);
            let a = boundary_of(s, fn_def, e)->0;
            assert forall|j: int| 0 <= j < seen.len() implies !(c <= (#[trigger] seen[j]).node
                < s[c as int].end) by {
                if j < lets.len() {
                    assert(seen[j] == lets[j]);
                } else {
                    assert(seen[j] == outer[j - lets.len()]);
                    lemma_seen_from_outside(s, fn_def, e, j - lets.len());
                }
            }
        },
        None => {},
    }
}

/// The node that bounds the scope of `node` is `node` or one of its
/// ancestors.
pub proof fn lemma_boundary_encloses(s: Seq<SyntaxNode>, fn_def: usize, node: usize)
    requires
        wf_nodes(s),
        boundary_of(s, fn_def, node) is Some,
    ensures
        bounds_scope(s, fn_def, boundary_of(s, fn_def, node)->0),
        boundary_of(s, fn_def, node)->0 <= node < s[boundary_of(s, fn_def, node)->0 as int].end,
        node < s.len(),
        s[node as int].end <= s[boundary_of(s, fn_def, node)->0 as int].end,
    decreases node,
{
    assert(wf_node(s, node as int));
    if !bounds_scope(s, fn_def, node) {
        let p = s[node as int].parent->0;
        lemma_boundary_encloses(s, fn_def, p);
        let a = boundary_of(s, fn_def, p)->0;
        assert(wf_node(s, p as int));
        if a < p {
            lemma_nested(s, a as int, p as int);
        }
    }
}

/// Nothing that is visible at a node comes from the expression that bounds
/// its scope, or from inside that expression: what an expression sees was
/// declared outside it.
pub proof fn lemma_seen_from_outside(s: Seq<SyntaxNode>, fn_def: usize, node: usize, j: int)
    requires
        wf_nodes(s),
        fn_def < s.len(),
        boundary_of(s, fn_def, node) is Some,
        0 <= j < visible_in(s, fn_def, node).len(),
    ensures
        !(boundary_of(s, fn_def, node)->0 <= visible_in(s, fn_def, node)[j].node < s[boundary_of(
            s,
            fn_def,
            node,
        )->0 as int].end),
{
    let a = boundary_of(s, fn_def, node)->0;
    lemma_boundary_encloses(s, fn_def, node);
    lemma_fn_scopes(s, fn_def);
    lemma_marks(s, fn_def, a);
    lemma_visible_is_env(s, fn_def, a);
    assert(sees_outside(s, fn_scopes(s, fn_def), a));
}

/// The initializer of a declaration does not see the names that the
/// declaration introduces: no binding visible at the initializer `init` of
/// the declaration `stmt` comes from a node of `stmt`.
pub proof fn lemma_initializer_hides_declaration(
    s: Seq<SyntaxNode>,
    fn_def: usize,
    stmt: usize,
    init: usize,
    j: int,
)
    requires
        wf_nodes(s),
        fn_def < s.len(),
        stmt < s.len(),
        s[stmt as int].kind == SyntaxKind::LetStmt,
        first_child(s, stmt, KindClass::Expr) == Some(init),
        0 <= j < visible_in(s, fn_def, init).len(),
    ensures
        !(stmt <= visible_in(s, fn_def, init)[j].node < s[stmt as int].end),
{
    let m = fn_scopes(s, fn_def);
    lemma_fn_scopes(s, fn_def);
    lemma_nth_child(s, stmt, KindClass::Expr, 0);
    lemma_child_parent(s, stmt, KindClass::Expr, 0);
    lemma_visible_in(s, fn_def, init);
    lemma_boundary_encloses(s, fn_def, init);
    let a = boundary_of(s, fn_def, init)->0;
    if a == init {
        lemma_marks(s, fn_def, init);
        assert(own_bindings_hidden(s, m, init));
    } else {
        // The scope is that of an expression around the declaration.
        assert(wf_node(s, init as int));
        assert(wf_node(s, stmt as int));
        assert(boundary_of(s, fn_def, init) == boundary_of(s, fn_def, stmt));
        lemma_boundary_encloses(s, fn_def, stmt);
        if a == stmt {
            let p = s[stmt as int].parent->0;
            lemma_nth_child(s, p, KindClass::Expr, 0);
        }
        lemma_seen_from_outside(s, fn_def, init, j);
    }
}

} // verus!
