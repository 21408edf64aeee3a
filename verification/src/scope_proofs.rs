//! The scopes that the walk over a function builds make visible what is
//! visible by the tree.
//!
//! The walk only ever adds: a scope that exists is never changed again and
//! every scope is built after its parent ([`lemma_expr_grows`],
//! [`lemma_block_grows`]). Where the walk comes to a subtree for the first
//! time, a node is marked at most once, and what the walk adds comes from
//! the nodes of the subtree ([`lemma_expr_scopes`], [`lemma_block_scopes`],
//! [`walked`], [`fresh`]). So what
//! is visible at a marked node is fixed when the node is marked, and it is
//! what the node sees by its place in the tree ([`lemma_visible_is_env`]).
//! The walk comes to every block and expression that it is to walk, so
//! every node that bounds a scope by its place is marked
//! ([`lemma_boundary_is_marked`]). Together: the marked nodes are the nodes
//! that bound a scope, and what the scopes make visible at any node is what
//! is visible there by the tree ([`lemma_marks`], [`lemma_visible_in`]).
//!
//! Of the scope chains the same is said scope by scope: the chain of an
//! expression in a block ends in the chain that the block was entered with
//! ([`lemma_block_chain`]), and the one scope that is made for the pattern
//! of a condition is on the chain of every expression in the block that the
//! condition guards and on no chain in the other block
//! ([`lemma_guarded_chain`], [`lemma_else_chain`]).

use crate::visibility::{
    bindings_in, block_env, block_lets, block_walked, boundary_of, bounds_scope, expr_env,
    expr_walked, fn_params, guard_bindings, is_block_expr, is_plain_expr, let_bindings,
    lets_before, params_bindings, pat_bindings, visible_in, Binding,
};
use crate::scopes::{
    block_scopes, children_scopes, cond_scopes, expr_scopes, fn_scopes, guard_scopes, let_scopes,
    scope_chain, scope_of, stmts_scopes, visible_at, ScopeMap,
};
use crate::syntax::{
    first_child, lemma_child_parent, lemma_children_disjoint, lemma_nested, lemma_nth_child,
    lemma_second_sibling, nth_child, wf_node, wf_nodes, KindClass, SyntaxKind, SyntaxNode,
};
use vstd::prelude::*;

verus! {

/// What grows twice has grown.
pub proof fn lemma_grows_trans(m0: ScopeMap, m1: ScopeMap, m2: ScopeMap)
    requires
        m0.grows_to(m1),
        m1.grows_to(m2),
    ensures
        m0.grows_to(m2),
{
    assert forall|i: int| 0 <= i < m0.scopes.len() implies #[trigger] m2.scopes[i]
        == m0.scopes[i] by {
        assert(m1.scopes[i] == m0.scopes[i]);
    }
    assert forall|i: int| m0.scopes.len() <= i < m2.scopes.len() implies (
    #[trigger] m2.scopes[i]).parent is Some by {
        if i < m1.scopes.len() {
            assert(m2.scopes[i] == m1.scopes[i]);
        }
    }
    assert forall|n: usize| #[trigger] m0.scope_for.contains_key(n) implies m2.scope_for.contains_key(
        n,
    ) by {
        assert(m1.scope_for.contains_key(n));
    }
}

/// A declaration only adds: one scope, inside `scope`, and at most one
/// mark. A scope that exists is not changed.
pub proof fn lemma_let_grows(s: Seq<SyntaxNode>, stmt: usize, m: ScopeMap, scope: nat)
    ensures
        m.grows_to(let_scopes(s, stmt, m, scope).0),
        let_scopes(s, stmt, m, scope).0.scopes.len() == m.scopes.len() + 1,
        let_scopes(s, stmt, m, scope).1 == m.scopes.len(),
        let_scopes(s, stmt, m, scope).0.scopes[m.scopes.len() as int].parent == Some(scope),
        m.wf() && scope < m.scopes.len() ==> let_scopes(s, stmt, m, scope).0.wf(),
{
}

/// The walk over statements only adds. Every scope is built after its
/// parent: where the scopes are well formed and `scope` is one of them,
/// they are well formed afterwards, and the scope that is active after the
/// statements is one of them.
pub proof fn lemma_stmts_grow(s: Seq<SyntaxNode>, c: usize, end: usize, m: ScopeMap, scope: nat)
    ensures
        m.grows_to(stmts_scopes(s, c, end, m, scope).0),
        m.wf() && scope < m.scopes.len() ==> stmts_scopes(s, c, end, m, scope).0.wf()
            && stmts_scopes(s, c, end, m, scope).1 < stmts_scopes(s, c, end, m, scope).0.scopes.len(),
    decreases s.len() - c, 2nat,
{
    if c >= end || end > s.len() || s[c as int].end <= c || s[c as int].end > end {
    } else {
        let next = s[c as int].end;
        match s[c as int].kind {
            SyntaxKind::LetStmt => {
                let (m1, scope1) = let_scopes(s, c, m, scope);
                lemma_let_grows(s, c, m, scope);
                lemma_stmts_grow(s, next, end, m1, scope1);
                lemma_grows_trans(m, m1, stmts_scopes(s, next, end, m1, scope1).0);
            },
            SyntaxKind::ExprStmt => match first_child(s, c, KindClass::Expr) {
                Some(e) => {
                    if c < e < s.len() {
                        let m0 = m.mark(e, scope);
                        let m1 = expr_scopes(s, e, m0, scope);
                        lemma_expr_grows(s, e, m0, scope);
                        lemma_grows_trans(m, m0, m1);
                        lemma_stmts_grow(s, next, end, m1, scope);
                        lemma_grows_trans(m, m1, stmts_scopes(s, next, end, m1, scope).0);
                    } else {
                        lemma_stmts_grow(s, next, end, m, scope);
                    }
                },
                None => {
                    lemma_stmts_grow(s, next, end, m, scope);
                },
            },
            _ => {
                lemma_stmts_grow(s, next, end, m, scope);
            },
        }
    }
}

/// The walk over a block only adds, and builds every scope after its
/// parent.
pub proof fn lemma_block_grows(s: Seq<SyntaxNode>, block: usize, m: ScopeMap, scope: nat)
    ensures
        m.grows_to(block_scopes(s, block, m, scope)),
        m.wf() && scope < m.scopes.len() ==> block_scopes(s, block, m, scope).wf(),
    decreases s.len() - block, 1nat,
{
    if block < s.len() && block < usize::MAX {
        let (m1, scope1) = stmts_scopes(s, (block + 1) as usize, s[block as int].end, m, scope);
        lemma_stmts_grow(s, (block + 1) as usize, s[block as int].end, m, scope);
        match first_child(s, block, KindClass::Expr) {
            Some(e) => {
                if block < e < s.len() {
                    let m2 = m1.mark(e, scope1);
                    lemma_expr_grows(s, e, m2, scope1);
                    lemma_grows_trans(m, m1, m2);
                    lemma_grows_trans(m, m2, expr_scopes(s, e, m2, scope1));
                }
            },
            None => {},
        }
    }
}

/// The walk over a condition only adds: what the walk over its expression
/// adds, and one scope inside `scope` where the condition has a pattern.
pub proof fn lemma_cond_grows(s: Seq<SyntaxNode>, cond: usize, m: ScopeMap, scope: nat)
    ensures
        m.grows_to(cond_scopes(s, cond, m, scope).0),
        m.wf() && scope < m.scopes.len() ==> cond_scopes(s, cond, m, scope).0.wf() && (cond_scopes(
            s,
            cond,
            m,
            scope,
        ).1 matches Some(new) ==> new < cond_scopes(s, cond, m, scope).0.scopes.len()),
        cond_scopes(s, cond, m, scope).1 matches Some(new) ==> new + 1 == cond_scopes(
            s,
            cond,
            m,
            scope,
        ).0.scopes.len() && m.scopes.len() <= new && cond_scopes(s, cond, m, scope).0.scopes[new as int]
            == (crate::scopes::Scope {
            parent: Some(scope),
            entries: pat_bindings(s, first_child(s, cond, KindClass::Pat)->0),
        }),
    decreases s.len() - cond, 0nat,
{
    let m1 = match first_child(s, cond, KindClass::Expr) {
        Some(x) => if cond < x < s.len() {
            expr_scopes(s, x, m, scope)
        } else {
            m
        },
        None => m,
    };
    match first_child(s, cond, KindClass::Expr) {
        Some(x) => {
            if cond < x < s.len() {
                lemma_expr_grows(s, x, m, scope);
            }
        },
        None => {},
    }
    match first_child(s, cond, KindClass::Pat) {
        Some(p) => {
            let m2 = m1.push_scope(Some(scope)).add_entries(
                m1.scopes.len() as int,
                pat_bindings(s, p),
            );
            assert(m1.grows_to(m2));
            assert(m2.scopes[m1.scopes.len() as int].entries =~= pat_bindings(s, p));
            lemma_grows_trans(m, m1, m2);
        },
        None => {},
    }
}

/// The walk over the condition of a conditional or loop only adds.
pub proof fn lemma_guard_grows(s: Seq<SyntaxNode>, e: usize, m: ScopeMap, scope: nat)
    ensures
        m.grows_to(guard_scopes(s, e, m, scope).0),
        m.wf() && scope < m.scopes.len() ==> guard_scopes(s, e, m, scope).0.wf() && guard_scopes(
            s,
            e,
            m,
            scope,
        ).1 < guard_scopes(s, e, m, scope).0.scopes.len(),
    decreases s.len() - e, 0nat,
{
    match first_child(s, e, KindClass::Kind(SyntaxKind::Condition)) {
        Some(c) => {
            if e < c < s.len() {
                lemma_cond_grows(s, c, m, scope);
            }
        },
        None => {},
    }
}

/// The walk over an expression only adds: the scopes that exist stay as
/// they are, new scopes come behind them, and the nodes that are marked stay
/// marked. It builds every scope after its parent: where the scopes are well
/// formed and `scope` is one of them, they are well formed afterwards.
pub proof fn lemma_expr_grows(s: Seq<SyntaxNode>, e: usize, m: ScopeMap, scope: nat)
    ensures
        m.grows_to(expr_scopes(s, e, m, scope)),
        m.wf() && scope < m.scopes.len() ==> expr_scopes(s, e, m, scope).wf(),
    decreases s.len() - e, 1nat,
{
    let block = KindClass::Kind(SyntaxKind::Block);
    if e < s.len() && e < usize::MAX {
        match s[e as int].kind {
            SyntaxKind::IfExpr => {
                lemma_guard_grows(s, e, m, scope);
                let (m1, body_scope) = guard_scopes(s, e, m, scope);
                let m2 = match nth_child(s, e, block, 0) {
                    Some(b) => if e < b < s.len() {
                        block_scopes(s, b, m1, body_scope)
                    } else {
                        m1
                    },
                    None => m1,
                };
                match nth_child(s, e, block, 0) {
                    Some(b) => {
                        if e < b < s.len() {
                            lemma_block_grows(s, b, m1, body_scope);
                        }
                    },
                    None => {},
                }
                lemma_grows_trans(m, m1, m2);
                match nth_child(s, e, block, 1) {
                    Some(b) => {
                        if e < b < s.len() {
                            lemma_block_grows(s, b, m2, scope);
                            lemma_grows_trans(m, m2, block_scopes(s, b, m2, scope));
                        }
                    },
                    None => {},
                }
            },
            SyntaxKind::WhileExpr => {
                lemma_guard_grows(s, e, m, scope);
                let (m1, body_scope) = guard_scopes(s, e, m, scope);
                match first_child(s, e, block) {
                    Some(b) => {
                        if e < b < s.len() {
                            lemma_block_grows(s, b, m1, body_scope);
                            lemma_grows_trans(m, m1, block_scopes(s, b, m1, body_scope));
                        }
                    },
                    None => {},
                }
            },
            SyntaxKind::BlockExpr => {
                match first_child(s, e, block) {
                    Some(b) => {
                        if e < b < s.len() {
                            lemma_block_grows(s, b, m, scope);
                        }
                    },
                    None => {},
                }
            },
            _ => {
                lemma_children_grow(s, (e + 1) as usize, s[e as int].end, m, scope);
            },
        }
    }
}

/// The walk over the expressions among some siblings only adds.
pub proof fn lemma_children_grow(s: Seq<SyntaxNode>, c: usize, end: usize, m: ScopeMap, scope: nat)
    ensures
        m.grows_to(children_scopes(s, c, end, m, scope)),
        m.wf() && scope < m.scopes.len() ==> children_scopes(s, c, end, m, scope).wf(),
    decreases s.len() - c, 2nat,
{
    if c >= end || end > s.len() || s[c as int].end <= c || s[c as int].end > end {
    } else if s[c as int].kind.spec_is_expr() {
        let m1 = expr_scopes(s, c, m, scope);
        lemma_expr_grows(s, c, m, scope);
        lemma_children_grow(s, s[c as int].end, end, m1, scope);
        lemma_grows_trans(m, m1, children_scopes(s, s[c as int].end, end, m1, scope));
    } else {
        lemma_children_grow(s, s[c as int].end, end, m, scope);
    }
}

/// Every binding comes from a node in `lo .. hi`.
pub open spec fn nodes_within(bs: Seq<Binding>, lo: int, hi: int) -> bool {
    forall|j: int| 0 <= j < bs.len() ==> lo <= (#[trigger] bs[j]).node < hi
}

/// No binding comes from a node in `lo .. hi`.
pub open spec fn nodes_outside(bs: Seq<Binding>, lo: int, hi: int) -> bool {
    forall|j: int| 0 <= j < bs.len() ==> !(lo <= (#[trigger] bs[j]).node < hi)
}

/// The walk has not been in `lo .. hi`: no binding comes from there and no
/// node there is marked.
pub open spec fn fresh(m: ScopeMap, lo: int, hi: int) -> bool {
    &&& forall|i: int|
        0 <= i < m.scopes.len() ==> nodes_outside((#[trigger] m.scopes[i]).entries, lo, hi)
    &&& forall|n: usize| #[trigger] m.scope_for.contains_key(n) ==> !(lo <= n < hi)
}

/// `m1` comes from `m0` by a walk over `lo .. hi`: the scopes of `m0` are
/// unchanged, each new scope has a parent and takes its bindings from
/// `lo .. hi`, the marks of `m0` are unchanged, and each new mark is in
/// `lo .. hi`.
pub open spec fn walked(m0: ScopeMap, m1: ScopeMap, lo: int, hi: int) -> bool {
    &&& m0.scopes.len() <= m1.scopes.len()
    &&& forall|i: int| 0 <= i < m0.scopes.len() ==> #[trigger] m1.scopes[i] == m0.scopes[i]
    &&& forall|i: int|
        m0.scopes.len() <= i < m1.scopes.len() ==> (#[trigger] m1.scopes[i]).parent is Some
            && nodes_within(m1.scopes[i].entries, lo, hi)
    &&& forall|n: usize| #[trigger]
        m0.scope_for.contains_key(n) ==> m1.scope_for.contains_key(n) && m1.scope_for[n]
            == m0.scope_for[n]
    &&& forall|n: usize| #[trigger]
        m1.scope_for.contains_key(n) ==> m0.scope_for.contains_key(n) || lo <= n < hi
}

/// Where the marked node `n` is a child of a declaration, nothing visible
/// from its scope comes from that declaration.
pub open spec fn own_bindings_hidden(s: Seq<SyntaxNode>, m: ScopeMap, n: usize) -> bool {
    n < s.len() ==> (s[n as int].parent matches Some(p) ==> (p < s.len() && s[p as int].kind
        == SyntaxKind::LetStmt ==> nodes_outside(
        m.visible_from(m.scope_for[n]),
        p as int,
        s[p as int].end as int,
    )))
}

/// Nothing visible from the scope of the marked node `n` comes from `n`
/// or from inside it.
pub open spec fn sees_outside(s: Seq<SyntaxNode>, m: ScopeMap, n: usize) -> bool {
    n < s.len() ==> nodes_outside(m.visible_from(m.scope_for[n]), n as int, s[n as int].end as int)
}

/// The scopes are well formed, no initializer sees its own declaration, and
/// no marked node sees what comes from its own subtree.
pub open spec fn sound(s: Seq<SyntaxNode>, m: ScopeMap) -> bool {
    &&& m.wf()
    &&& forall|n: usize| #[trigger]
        m.scope_for.contains_key(n) ==> own_bindings_hidden(s, m, n) && sees_outside(s, m, n)
}

proof fn lemma_bindings_in_within(s: Seq<SyntaxNode>, from: usize, to: usize)
    ensures
        nodes_within(bindings_in(s, from, to), from as int, to as int),
    decreases to,
{
    if to > from {
        lemma_bindings_in_within(s, from, (to - 1) as usize);
    }
}

proof fn lemma_pat_bindings_within(s: Seq<SyntaxNode>, pat: usize, lo: int, hi: int)
    requires
        pat < s.len(),
        lo <= pat,
        s[pat as int].end <= hi,
    ensures
        nodes_within(pat_bindings(s, pat), lo, hi),
{
    lemma_bindings_in_within(s, pat, s[pat as int].end);
}

/// What is visible from a scope is taken from that scope and those before it.
proof fn lemma_visible_outside(m: ScopeMap, x: nat, lo: int, hi: int)
    requires
        x < m.scopes.len(),
        forall|i: int|
            0 <= i < m.scopes.len() ==> nodes_outside((#[trigger] m.scopes[i]).entries, lo, hi),
    ensures
        nodes_outside(m.visible_from(x), lo, hi),
    decreases x,
{
    let own = m.scopes[x as int].entries;
    assert(nodes_outside(own, lo, hi));
    match m.scopes[x as int].parent {
        Some(p) => {
            if p < x {
                lemma_visible_outside(m, p, lo, hi);
                let rest = m.visible_from(p);
                assert forall|j: int| 0 <= j < (own + rest).len() implies !(lo <= (#[trigger] (own
                    + rest)[j]).node < hi) by {
                    if j < own.len() {
                        assert((own + rest)[j] == own[j]);
                    } else {
                        assert((own + rest)[j] == rest[j - own.len()]);
                    }
                }
            }
        },
        None => {},
    }
}

/// Scopes that are unchanged see what they saw.
proof fn lemma_visible_prefix(m0: ScopeMap, m1: ScopeMap, x: nat)
    requires
        x < m0.scopes.len() <= m1.scopes.len(),
        forall|i: int| 0 <= i < m0.scopes.len() ==> #[trigger] m1.scopes[i] == m0.scopes[i],
    ensures
        m1.visible_from(x) == m0.visible_from(x),
        m1.chain_from(x) == m0.chain_from(x),
    decreases x,
{
    assert(m1.scopes[x as int] == m0.scopes[x as int]);
    match m0.scopes[x as int].parent {
        Some(p) => {
            if p < x {
                lemma_visible_prefix(m0, m1, p);
            }
        },
        None => {},
    }
}

proof fn lemma_fresh_sub(m: ScopeMap, lo: int, hi: int, lo2: int, hi2: int)
    requires
        fresh(m, lo, hi),
        lo <= lo2,
        hi2 <= hi,
    ensures
        fresh(m, lo2, hi2),
{
    assert forall|i: int| 0 <= i < m.scopes.len() implies nodes_outside(
        (#[trigger] m.scopes[i]).entries,
        lo2,
        hi2,
    ) by {
        assert(nodes_outside(m.scopes[i].entries, lo, hi));
    }
}

/// A walk over one range leaves a range apart from it fresh.
proof fn lemma_fresh_after(m0: ScopeMap, m1: ScopeMap, lo: int, hi: int, lo2: int, hi2: int)
    requires
        fresh(m0, lo2, hi2),
        walked(m0, m1, lo, hi),
        hi <= lo2 || hi2 <= lo,
    ensures
        fresh(m1, lo2, hi2),
{
    assert forall|i: int| 0 <= i < m1.scopes.len() implies nodes_outside(
        (#[trigger] m1.scopes[i]).entries,
        lo2,
        hi2,
    ) by {
        if i < m0.scopes.len() {
            assert(m1.scopes[i] == m0.scopes[i]);
            assert(nodes_outside(m0.scopes[i].entries, lo2, hi2));
        } else {
            assert(nodes_within(m1.scopes[i].entries, lo, hi));
        }
    }
    assert forall|n: usize| #[trigger] m1.scope_for.contains_key(n) implies !(lo2 <= n < hi2) by {
        if m0.scope_for.contains_key(n) {
        }
    }
}

proof fn lemma_walked_trans(
    m0: ScopeMap,
    m1: ScopeMap,
    m2: ScopeMap,
    lo1: int,
    hi1: int,
    lo2: int,
    hi2: int,
    lo: int,
    hi: int,
)
    requires
        walked(m0, m1, lo1, hi1),
        walked(m1, m2, lo2, hi2),
        lo <= lo1,
        hi1 <= hi,
        lo <= lo2,
        hi2 <= hi,
    ensures
        walked(m0, m2, lo, hi),
{
    assert forall|i: int| 0 <= i < m0.scopes.len() implies #[trigger] m2.scopes[i]
        == m0.scopes[i] by {
        assert(m1.scopes[i] == m0.scopes[i]);
    }
    assert forall|i: int| m0.scopes.len() <= i < m2.scopes.len() implies (
    #[trigger] m2.scopes[i]).parent is Some && nodes_within(m2.scopes[i].entries, lo, hi) by {
        if i < m1.scopes.len() {
            assert(m2.scopes[i] == m1.scopes[i]);
            assert(nodes_within(m1.scopes[i].entries, lo1, hi1));
        } else {
            assert(nodes_within(m2.scopes[i].entries, lo2, hi2));
        }
    }
    assert forall|n: usize| #[trigger] m0.scope_for.contains_key(n) implies m2.scope_for.contains_key(
        n,
    ) && m2.scope_for[n] == m0.scope_for[n] by {
        assert(m1.scope_for.contains_key(n));
    }
    assert forall|n: usize| #[trigger] m2.scope_for.contains_key(n) implies m0.scope_for.contains_key(
        n,
    ) || lo <= n < hi by {
        if m1.scope_for.contains_key(n) {
        }
    }
}

proof fn lemma_walked_refl(m: ScopeMap, lo: int, hi: int)
    ensures
        walked(m, m, lo, hi),
{
}

/// The scopes stay sound where each new mark hides its own declaration.
proof fn lemma_sound_step(s: Seq<SyntaxNode>, m0: ScopeMap, m1: ScopeMap, lo: int, hi: int)
    requires
        sound(s, m0),
        m1.wf(),
        walked(m0, m1, lo, hi),
        forall|n: usize| #[trigger]
            m1.scope_for.contains_key(n) && !m0.scope_for.contains_key(n) ==> own_bindings_hidden(
                s,
                m1,
                n,
            ) && sees_outside(s, m1, n),
    ensures
        sound(s, m1),
{
    assert forall|n: usize| #[trigger] m1.scope_for.contains_key(n) implies own_bindings_hidden(
        s,
        m1,
        n,
    ) && sees_outside(s, m1, n) by {
        if m0.scope_for.contains_key(n) {
            assert(own_bindings_hidden(s, m0, n));
            assert(sees_outside(s, m0, n));
            assert(m1.scope_for[n] == m0.scope_for[n]);
            lemma_visible_prefix(m0, m1, m0.scope_for[n]);
        }
    }
}

/// A new scope inside an existing one, with bindings from `lo .. hi`.
proof fn lemma_new_scope(
    s: Seq<SyntaxNode>,
    m: ScopeMap,
    scope: nat,
    bs: Seq<Binding>,
    lo: int,
    hi: int,
)
    requires
        sound(s, m),
        scope < m.scopes.len(),
        nodes_within(bs, lo, hi),
    ensures
        sound(s, m.push_scope(Some(scope))),
        walked(m, m.push_scope(Some(scope)), lo, hi),
        sound(s, m.push_scope(Some(scope)).add_entries(m.scopes.len() as int, bs)),
        walked(m, m.push_scope(Some(scope)).add_entries(m.scopes.len() as int, bs), lo, hi),
{
    let m1 = m.push_scope(Some(scope));
    let m2 = m1.add_entries(m.scopes.len() as int, bs);
    assert(m1.wf());
    assert(walked(m, m1, lo, hi));
    lemma_sound_step(s, m, m1, lo, hi);
    assert(m2.wf());
    assert(m2.scopes[m.scopes.len() as int].entries =~= bs);
    assert(walked(m, m2, lo, hi));
    lemma_sound_step(s, m, m2, lo, hi);
}

/// A new mark on a node that is not the child of a declaration.
proof fn lemma_new_mark(
    s: Seq<SyntaxNode>,
    m: ScopeMap,
    e: usize,
    scope: nat,
    lo: int,
    hi: int,
)
    requires
        sound(s, m),
        scope < m.scopes.len(),
        lo <= e < hi,
        !m.scope_for.contains_key(e),
        own_bindings_hidden(s, m.mark(e, scope), e),
        e < s.len() ==> exists|from: int, to: int|
            from <= e && s[e as int].end <= to && #[trigger] fresh(m, from, to),
    ensures
        sound(s, m.mark(e, scope)),
        walked(m, m.mark(e, scope), lo, hi),
{
    let m1 = m.mark(e, scope);
    if e < s.len() {
        let (from, to) = choose|from: int, to: int|
            from <= e && s[e as int].end <= to && #[trigger] fresh(m, from, to);
        lemma_visible_outside(m, scope, from, to);
        lemma_visible_prefix(m, m1, scope);
        assert(sees_outside(s, m1, e));
    }
    assert(m1.wf());
    assert(walked(m, m1, lo, hi));
    lemma_sound_step(s, m, m1, lo, hi);
}

/// A declaration at `c`: see [`let_scopes`].
proof fn lemma_let_scopes(s: Seq<SyntaxNode>, c: usize, m: ScopeMap, scope: nat)
    requires
        wf_nodes(s),
        c < s.len(),
        s[c as int].kind == SyntaxKind::LetStmt,
        sound(s, m),
        scope < m.scopes.len(),
        fresh(m, c as int, s[c as int].end as int),
    ensures
        sound(s, let_scopes(s, c, m, scope).0),
        walked(m, let_scopes(s, c, m, scope).0, c as int, s[c as int].end as int),
        let_scopes(s, c, m, scope).1 < let_scopes(s, c, m, scope).0.scopes.len(),
        let_scopes(s, c, m, scope).0.visible_from(let_scopes(s, c, m, scope).1) == let_bindings(
            s,
            c,
        ) + m.visible_from(scope),
        first_child(s, c, KindClass::Expr) matches Some(e) ==> let_scopes(
            s,
            c,
            m,
            scope,
        ).0.scope_for.contains_key(e) && let_scopes(s, c, m, scope).0.scope_for[e] == scope,
{
    let lo = c as int;
    let hi = s[c as int].end as int;
    let m1 = m.push_scope(Some(scope));
    let bs = match first_child(s, c, KindClass::Pat) {
        Some(p) => pat_bindings(s, p),
        None => Seq::empty(),
    };
    let m2 = match first_child(s, c, KindClass::Pat) {
        Some(p) => m1.add_entries(m.scopes.len() as int, pat_bindings(s, p)),
        None => m1,
    };
    match first_child(s, c, KindClass::Pat) {
        Some(p) => {
            lemma_nth_child(s, c, KindClass::Pat, 0);
            lemma_nested(s, c as int, p as int);
            lemma_pat_bindings_within(s, p, lo, hi);
        },
        None => {},
    }
    lemma_new_scope(s, m, scope, bs, lo, hi);
    assert(sound(s, m2) && walked(m, m2, lo, hi));
    let new = m.scopes.len();
    assert(m2.scopes[new as int].entries =~= bs);
    assert(m2.scopes[new as int].parent == Some(scope));
    lemma_visible_prefix(m, m2, scope);
    assert(m2.visible_from(new) == bs + m.visible_from(scope));
    let m3 = let_scopes(s, c, m, scope).0;
    assert(m3.scopes == m2.scopes);
    lemma_visible_prefix(m2, m3, new);
    match first_child(s, c, KindClass::Expr) {
        Some(e) => {
            lemma_nth_child(s, c, KindClass::Expr, 0);
            lemma_child_parent(s, c, KindClass::Expr, 0);
            let m3 = m2.mark(e, scope);
            assert(!m.scope_for.contains_key(e));
            assert(!m2.scope_for.contains_key(e));
            assert(own_bindings_hidden(s, m3, e)) by {
                lemma_visible_prefix(m, m3, scope);
                lemma_visible_outside(m, scope, lo, hi);
            }
            // The pattern and the initializer do not overlap.
            lemma_nested(s, c as int, e as int);
            let elo = e as int;
            let ehi = s[e as int].end as int;
            assert(fresh(m2, elo, ehi)) by {
                lemma_fresh_sub(m, lo, hi, elo, ehi);
                match first_child(s, c, KindClass::Pat) {
                    Some(p) => {
                        lemma_child_parent(s, c, KindClass::Pat, 0);
                        if p < e {
                            lemma_children_disjoint(s, p, e);
                        } else if e < p {
                            lemma_children_disjoint(s, e, p);
                        }
                        lemma_pat_bindings_within(s, p, p as int, s[p as int].end as int);
                    },
                    None => {},
                }
                assert forall|i: int| 0 <= i < m2.scopes.len() implies nodes_outside(
                    (#[trigger] m2.scopes[i]).entries,
                    elo,
                    ehi,
                ) by {
                    if i < m.scopes.len() {
                        assert(m2.scopes[i] == m.scopes[i]);
                    }
                }
            }
            lemma_new_mark(s, m2, e, scope, lo, hi);
            lemma_walked_trans(m, m2, m3, lo, hi, lo, hi, lo, hi);
        },
        None => {},
    }
}

/// What the statement at `c` does to the scopes: the scopes after the
/// statement, and the scope active for the next statement.
pub open spec fn stmt_scopes(s: Seq<SyntaxNode>, c: usize, m: ScopeMap, scope: nat) -> (
    ScopeMap,
    nat,
) {
    match s[c as int].kind {
        SyntaxKind::LetStmt => let_scopes(s, c, m, scope),
        SyntaxKind::ExprStmt => match first_child(s, c, KindClass::Expr) {
            Some(e) => if c < e < s.len() {
                (expr_scopes(s, e, m.mark(e, scope), scope), scope)
            } else {
                (m, scope)
            },
            None => (m, scope),
        },
        _ => (m, scope),
    }
}

/// The bindings that the statement at `c` introduces.
pub open spec fn stmt_bindings(s: Seq<SyntaxNode>, c: usize) -> Seq<Binding> {
    if s[c as int].kind == SyntaxKind::LetStmt {
        let_bindings(s, c)
    } else {
        Seq::empty()
    }
}

/// One statement among the children of `b`: the walk is at `c`, a child of
/// `b`, and goes on behind it. The range `klo .. khi`, which meets no
/// statement of `b`, stays fresh.
proof fn lemma_stmt_step(
    s: Seq<SyntaxNode>,
    b: usize,
    c: usize,
    m: ScopeMap,
    scope: nat,
    klo: int,
    khi: int,
)
    requires
        wf_nodes(s),
        b < s.len(),
        b < c < s[b as int].end,
        forall|k: int| b < k < c ==> (#[trigger] s[k]).end <= c,
        sound(s, m),
        scope < m.scopes.len(),
        fresh(m, c as int, s[b as int].end as int),
        fresh(m, klo, khi),
        forall|k: int|
            b < k < s[b as int].end && (#[trigger] s[k]).parent == Some(b)
                && s[k].kind.spec_is_stmt() ==> s[k].end <= klo || khi <= k,
    ensures
        c < s.len(),
        c < s[c as int].end <= s[b as int].end <= s.len(),
        s[c as int].parent == Some(b),
        forall|k: int| b < k < s[c as int].end ==> (#[trigger] s[k]).end <= s[c as int].end,
        stmts_scopes(s, c, s[b as int].end, m, scope) == stmts_scopes(
            s,
            s[c as int].end,
            s[b as int].end,
            stmt_scopes(s, c, m, scope).0,
            stmt_scopes(s, c, m, scope).1,
        ),
        sound(s, stmt_scopes(s, c, m, scope).0),
        walked(m, stmt_scopes(s, c, m, scope).0, c as int, s[c as int].end as int),
        stmt_scopes(s, c, m, scope).1 < stmt_scopes(s, c, m, scope).0.scopes.len(),
        fresh(stmt_scopes(s, c, m, scope).0, s[c as int].end as int, s[b as int].end as int),
        fresh(stmt_scopes(s, c, m, scope).0, klo, khi),
        stmt_scopes(s, c, m, scope).0.visible_from(stmt_scopes(s, c, m, scope).1)
            == stmt_bindings(s, c) + m.visible_from(scope),
        s[c as int].kind.spec_is_stmt() ==> (first_child(s, c, KindClass::Expr) matches Some(e)
            ==> stmt_scopes(s, c, m, scope).0.scope_for.contains_key(e) && stmt_scopes(
            s,
            c,
            m,
            scope,
        ).0.scope_for[e] == scope && s[e as int].parent == Some(c) && c < e < s[c as int].end),
    decreases s.len() - c, 2nat,
{
    let end = s[b as int].end;
    assert(wf_node(s, b as int));
    lemma_nested(s, b as int, c as int);
    let next = s[c as int].end;
    assert(wf_node(s, c as int));
    // `c` is a child of `b`.
    let p = s[c as int].parent->0;
    if p < b {
        assert(s[b as int].end <= c);
    } else if p > b {
        assert(s[p as int].end <= c);
    }
    assert(s[c as int].parent == Some(b));
    assert forall|k: int| b < k < next implies (#[trigger] s[k]).end <= next by {
        if k > c {
            lemma_nested(s, c as int, k);
        }
    }
    let (m1, scope1) = stmt_scopes(s, c, m, scope);
    let own = stmt_bindings(s, c);
    lemma_fresh_sub(m, c as int, end as int, c as int, next as int);
    match s[c as int].kind {
        SyntaxKind::LetStmt => {
            lemma_let_scopes(s, c, m, scope);
            match first_child(s, c, KindClass::Expr) {
                Some(e) => {
                    lemma_nth_child(s, c, KindClass::Expr, 0);
                    lemma_child_parent(s, c, KindClass::Expr, 0);
                },
                None => {},
            }
        },
        SyntaxKind::ExprStmt => match first_child(s, c, KindClass::Expr) {
            Some(e) => {
                lemma_nth_child(s, c, KindClass::Expr, 0);
                lemma_child_parent(s, c, KindClass::Expr, 0);
                lemma_nested(s, c as int, e as int);
                let m0 = m.mark(e, scope);
                assert(own_bindings_hidden(s, m0, e));
                lemma_new_mark(s, m, e, scope, c as int, next as int);
                lemma_fresh_sub(m, c as int, end as int, e + 1, s[e as int].end as int);
                assert(fresh(m0, e + 1, s[e as int].end as int));
                lemma_expr_scopes(s, e, m0, scope);
                lemma_walked_trans(
                    m,
                    m0,
                    m1,
                    c as int,
                    next as int,
                    e + 1,
                    s[e as int].end as int,
                    c as int,
                    next as int,
                );
                lemma_visible_prefix(m, m1, scope);
                assert(own + m.visible_from(scope) =~= m.visible_from(scope));
                assert(m0.scope_for.contains_key(e) && m0.scope_for[e] == scope);
                assert(m1.scope_for.contains_key(e) && m1.scope_for[e] == scope);
            },
            None => {
                lemma_walked_refl(m, c as int, next as int);
                assert(own + m.visible_from(scope) =~= m.visible_from(scope));
            },
        },
        _ => {
            lemma_walked_refl(m, c as int, next as int);
            assert(own + m.visible_from(scope) =~= m.visible_from(scope));
        },
    }
    lemma_fresh_sub(m, c as int, end as int, next as int, end as int);
    lemma_fresh_after(m, m1, c as int, next as int, next as int, end as int);
    assert(fresh(m1, klo, khi)) by {
        if s[c as int].kind.spec_is_stmt() {
            assert(s[c as int].end <= klo || khi <= c);
            lemma_fresh_after(m, m1, c as int, next as int, klo, khi);
        } else {
            assert(m1 == m);
        }
    }
}

/// The statements among the children of `b`, from `c` on: see
/// [`stmts_scopes`]. The range `klo .. khi`, which meets no statement of
/// `b`, stays fresh.
proof fn lemma_stmts_scopes(
    s: Seq<SyntaxNode>,
    b: usize,
    c: usize,
    m: ScopeMap,
    scope: nat,
    klo: int,
    khi: int,
)
    requires
        wf_nodes(s),
        b < s.len(),
        b < c <= s[b as int].end,
        forall|k: int| b < k < c ==> (#[trigger] s[k]).end <= c,
        sound(s, m),
        scope < m.scopes.len(),
        fresh(m, c as int, s[b as int].end as int),
        fresh(m, klo, khi),
        forall|k: int|
            b < k < s[b as int].end && (#[trigger] s[k]).parent == Some(b)
                && s[k].kind.spec_is_stmt() ==> s[k].end <= klo || khi <= k,
    ensures
        sound(s, stmts_scopes(s, c, s[b as int].end, m, scope).0),
        walked(m, stmts_scopes(s, c, s[b as int].end, m, scope).0, c as int, s[b as int].end as int),
        stmts_scopes(s, c, s[b as int].end, m, scope).1 < stmts_scopes(
            s,
            c,
            s[b as int].end,
            m,
            scope,
        ).0.scopes.len(),
        fresh(stmts_scopes(s, c, s[b as int].end, m, scope).0, klo, khi),
        stmts_scopes(s, c, s[b as int].end, m, scope).0.visible_from(
            stmts_scopes(s, c, s[b as int].end, m, scope).1,
        ) == lets_before(s, c, s[b as int].end, s[b as int].end) + m.visible_from(scope),
    decreases s.len() - c, 3nat,
{
    let end = s[b as int].end;
    assert(wf_node(s, b as int));
    if c >= end {
        lemma_walked_refl(m, c as int, end as int);
        assert(lets_before(s, c, end, end) + m.visible_from(scope) =~= m.visible_from(scope));
    } else {
        lemma_stmt_step(s, b, c, m, scope, klo, khi);
        let next = s[c as int].end;
        let (m1, scope1) = stmt_scopes(s, c, m, scope);
        let own = stmt_bindings(s, c);
        lemma_stmts_scopes(s, b, next, m1, scope1, klo, khi);
        let m2 = stmts_scopes(s, next, end, m1, scope1).0;
        assert(lets_before(s, c, end, end) =~= lets_before(s, next, end, end) + own);
        assert(lets_before(s, next, end, end) + (own + m.visible_from(scope)) =~= lets_before(
            s,
            c,
            end,
            end,
        ) + m.visible_from(scope));
        lemma_walked_trans(
            m,
            m1,
            m2,
            c as int,
            next as int,
            next as int,
            end as int,
            c as int,
            end as int,
        );
    }
}

/// The expression of the statement `target` among the children of `b` is
/// marked by the walk from `c`, and sees the declarations between `c` and
/// `target`, the last one first, and then what `scope` sees.
proof fn lemma_stmt_mark(
    s: Seq<SyntaxNode>,
    b: usize,
    c: usize,
    m: ScopeMap,
    scope: nat,
    klo: int,
    khi: int,
    target: usize,
    e: usize,
)
    requires
        wf_nodes(s),
        b < s.len(),
        b < c <= s[b as int].end,
        forall|k: int| b < k < c ==> (#[trigger] s[k]).end <= c,
        sound(s, m),
        scope < m.scopes.len(),
        fresh(m, c as int, s[b as int].end as int),
        fresh(m, klo, khi),
        forall|k: int|
            b < k < s[b as int].end && (#[trigger] s[k]).parent == Some(b)
                && s[k].kind.spec_is_stmt() ==> s[k].end <= klo || khi <= k,
        c <= target < s[b as int].end,
        s[target as int].parent == Some(b),
        s[target as int].kind.spec_is_stmt(),
        first_child(s, target, KindClass::Expr) == Some(e),
    ensures
        stmts_scopes(s, c, s[b as int].end, m, scope).0.scope_for.contains_key(e),
        stmts_scopes(s, c, s[b as int].end, m, scope).0.visible_from(
            stmts_scopes(s, c, s[b as int].end, m, scope).0.scope_for[e],
        ) == lets_before(s, c, s[b as int].end, target) + m.visible_from(scope),
    decreases s.len() - c,
{
    let end = s[b as int].end;
    lemma_stmt_step(s, b, c, m, scope, klo, khi);
    let next = s[c as int].end;
    let (m1, scope1) = stmt_scopes(s, c, m, scope);
    let own = stmt_bindings(s, c);
    let m2 = stmts_scopes(s, next, end, m1, scope1).0;
    lemma_stmts_scopes(s, b, next, m1, scope1, klo, khi);
    if c == target {
        // The rest of the walk leaves the mark and its scope alone.
        assert(m2.scope_for.contains_key(e) && m2.scope_for[e] == scope);
        lemma_visible_prefix(m, m1, scope);
        lemma_visible_prefix(m1, m2, scope);
        assert(lets_before(s, c, end, target) + m.visible_from(scope) =~= m.visible_from(scope));
    } else {
        lemma_children_disjoint(s, c, target);
        lemma_stmt_mark(s, b, next, m1, scope1, klo, khi, target, e);
        assert(lets_before(s, c, end, target) =~= lets_before(s, next, end, target) + own);
        assert(lets_before(s, next, end, target) + (own + m.visible_from(scope)) =~= lets_before(
            s,
            c,
            end,
            target,
        ) + m.visible_from(scope));
    }
}

/// The walk over a block that it has not been in: it leaves every mark as
/// it is, marks only nodes of the block and takes the bindings of the new
/// scopes from nodes of the block. See [`walked`].
pub proof fn lemma_block_scopes(s: Seq<SyntaxNode>, b: usize, m: ScopeMap, scope: nat)
    requires
        wf_nodes(s),
        b < s.len(),
        s[b as int].kind != SyntaxKind::LetStmt,
        sound(s, m),
        scope < m.scopes.len(),
        fresh(m, b + 1, s[b as int].end as int),
    ensures
        sound(s, block_scopes(s, b, m, scope)),
        walked(m, block_scopes(s, b, m, scope), b + 1, s[b as int].end as int),
        first_child(s, b, KindClass::Expr) matches Some(e) ==> block_scopes(
            s,
            b,
            m,
            scope,
        ).scope_for.contains_key(e) && block_scopes(s, b, m, scope).visible_from(
            block_scopes(s, b, m, scope).scope_for[e],
        ) == block_lets(s, b, s[b as int].end) + m.visible_from(scope),
    decreases s.len() - b, 1nat,
{
    let lo = b + 1;
    let end = s[b as int].end;
    let hi = end as int;
    assert(wf_node(s, b as int));
    assert(wf_node(s, 0));
    let trailing = first_child(s, b, KindClass::Expr);
    let (klo, khi) = match trailing {
        Some(e) => (e as int, s[e as int].end as int),
        None => (0int, 0int),
    };
    match trailing {
        Some(e) => {
            lemma_nth_child(s, b, KindClass::Expr, 0);
            lemma_child_parent(s, b, KindClass::Expr, 0);
            lemma_nested(s, b as int, e as int);
            lemma_fresh_sub(m, lo, hi, klo, khi);
            assert forall|k: int|
                b < k < end && (#[trigger] s[k]).parent == Some(b)
                    && s[k].kind.spec_is_stmt() implies s[k].end <= klo || khi <= k by {
                if k < e {
                    lemma_children_disjoint(s, k as usize, e);
                } else if k > e {
                    lemma_children_disjoint(s, e, k as usize);
                }
            }
        },
        None => {
            assert(fresh(m, 0, 0));
        },
    }
    lemma_stmts_scopes(s, b, (b + 1) as usize, m, scope, klo, khi);
    let (m1, scope1) = stmts_scopes(s, (b + 1) as usize, end, m, scope);
    match trailing {
        Some(e) => {
            let m2 = m1.mark(e, scope1);
            assert(own_bindings_hidden(s, m2, e));
            lemma_new_mark(s, m1, e, scope1, lo, hi);
            assert(fresh(m2, e + 1, khi)) by {
                lemma_fresh_sub(m1, klo, khi, e + 1, khi);
            }
            lemma_expr_scopes(s, e, m2, scope1);
            let m3 = expr_scopes(s, e, m2, scope1);
            lemma_walked_trans(m, m1, m2, lo, hi, lo, hi, lo, hi);
            lemma_walked_trans(m, m2, m3, lo, hi, e + 1, khi, lo, hi);
            lemma_visible_prefix(m1, m2, scope1);
            lemma_visible_prefix(m2, m3, scope1);
            assert(m2.scope_for.contains_key(e) && m2.scope_for[e] == scope1);
            assert(m3.scope_for.contains_key(e) && m3.scope_for[e] == scope1);
            assert(block_lets(s, b, end) == lets_before(s, (b + 1) as usize, end, end));
            assert(m1.visible_from(scope1) == block_lets(s, b, end) + m.visible_from(scope));
            assert(block_scopes(s, b, m, scope) == m3);
        },
        None => {},
    }
}

/// What an expression of a block sees. When a block is walked, each
/// expression that stands in it is marked, and what is visible at it is:
/// the declarations of the block before it, the last one first, and then
/// what was visible from the scope that the block was entered with.
proof fn lemma_block_sees(
    s: Seq<SyntaxNode>,
    b: usize,
    m: ScopeMap,
    scope: nat,
    upto: usize,
    e: usize,
)
    requires
        wf_nodes(s),
        b < s.len(),
        s[b as int].kind != SyntaxKind::LetStmt,
        sound(s, m),
        scope < m.scopes.len(),
        fresh(m, b + 1, s[b as int].end as int),
        is_block_expr(s, b, upto, e),
    ensures
        block_scopes(s, b, m, scope).scope_for.contains_key(e),
        visible_at(s, block_scopes(s, b, m, scope), e) == block_lets(s, b, upto) + m.visible_from(
            scope,
        ),
{
    let end = s[b as int].end;
    lemma_block_scopes(s, b, m, scope);
    assert(wf_node(s, 0));
    if upto != end {
        let lo = b + 1;
        let hi = end as int;
        assert(wf_node(s, b as int));
        assert(wf_node(s, upto as int));
        let trailing = first_child(s, b, KindClass::Expr);
        let (klo, khi) = match trailing {
            Some(t) => (t as int, s[t as int].end as int),
            None => (0int, 0int),
        };
        match trailing {
            Some(t) => {
                lemma_nth_child(s, b, KindClass::Expr, 0);
                lemma_child_parent(s, b, KindClass::Expr, 0);
                lemma_nested(s, b as int, t as int);
                lemma_fresh_sub(m, lo, hi, klo, khi);
                assert forall|k: int|
                    b < k < end && (#[trigger] s[k]).parent == Some(b)
                        && s[k].kind.spec_is_stmt() implies s[k].end <= klo || khi <= k by {
                    if k < t {
                        lemma_children_disjoint(s, k as usize, t);
                    } else if k > t {
                        lemma_children_disjoint(s, t, k as usize);
                    }
                }
            },
            None => {
                assert(fresh(m, 0, 0));
            },
        }
        lemma_stmts_scopes(s, b, (b + 1) as usize, m, scope, klo, khi);
        lemma_stmt_mark(s, b, (b + 1) as usize, m, scope, klo, khi, upto, e);
        let (m1, scope1) = stmts_scopes(s, (b + 1) as usize, end, m, scope);
        match trailing {
            Some(t) => {
                let m2 = m1.mark(t, scope1);
                assert(own_bindings_hidden(s, m2, t));
                lemma_new_mark(s, m1, t, scope1, lo, hi);
                assert(fresh(m2, t + 1, khi)) by {
                    lemma_fresh_sub(m1, klo, khi, t + 1, khi);
                }
                lemma_expr_scopes(s, t, m2, scope1);
                let m3 = expr_scopes(s, t, m2, scope1);
                let x = m1.scope_for[e];
                assert(m2.scope_for.contains_key(e) && m2.scope_for[e] == x);
                assert(m3.scope_for.contains_key(e) && m3.scope_for[e] == x);
                lemma_visible_prefix(m1, m2, x);
                lemma_visible_prefix(m2, m3, x);
            },
            None => {},
        }
    }
}

/// A condition: see [`cond_scopes`].
proof fn lemma_cond_scopes(s: Seq<SyntaxNode>, c: usize, m: ScopeMap, scope: nat)
    requires
        wf_nodes(s),
        c < s.len(),
        sound(s, m),
        scope < m.scopes.len(),
        fresh(m, c + 1, s[c as int].end as int),
    ensures
        sound(s, cond_scopes(s, c, m, scope).0),
        walked(m, cond_scopes(s, c, m, scope).0, c + 1, s[c as int].end as int),
        cond_scopes(s, c, m, scope).1 matches Some(x) ==> x < cond_scopes(
            s,
            c,
            m,
            scope,
        ).0.scopes.len() && first_child(s, c, KindClass::Pat) is Some && cond_scopes(
            s,
            c,
            m,
            scope,
        ).0.visible_from(x) == pat_bindings(s, first_child(s, c, KindClass::Pat)->0)
            + m.visible_from(scope),
        cond_scopes(s, c, m, scope).1 is None ==> first_child(s, c, KindClass::Pat) is None,
        cond_scopes(s, c, m, scope).0.visible_from(scope) == m.visible_from(scope),
    decreases s.len() - c, 0nat,
{
    let lo = c + 1;
    let hi = s[c as int].end as int;
    let m1 = match first_child(s, c, KindClass::Expr) {
        Some(x) => if c < x < s.len() {
            expr_scopes(s, x, m, scope)
        } else {
            m
        },
        None => m,
    };
    assert(sound(s, m1) && walked(m, m1, lo, hi)) by {
        match first_child(s, c, KindClass::Expr) {
            Some(x) => {
                lemma_nth_child(s, c, KindClass::Expr, 0);
                lemma_nested(s, c as int, x as int);
                lemma_fresh_sub(m, lo, hi, x + 1, s[x as int].end as int);
                lemma_expr_scopes(s, x, m, scope);
                lemma_walked_trans(m, m, m1, lo, hi, x + 1, s[x as int].end as int, lo, hi);
            },
            None => {},
        }
    }
    match first_child(s, c, KindClass::Pat) {
        Some(p) => {
            lemma_nth_child(s, c, KindClass::Pat, 0);
            lemma_nested(s, c as int, p as int);
            lemma_pat_bindings_within(s, p, lo, hi);
            lemma_new_scope(s, m1, scope, pat_bindings(s, p), lo, hi);
            let m2 = m1.push_scope(Some(scope)).add_entries(
                m1.scopes.len() as int,
                pat_bindings(s, p),
            );
            lemma_walked_trans(m, m1, m2, lo, hi, lo, hi, lo, hi);
            let new = m1.scopes.len();
            assert(m2.scopes[new as int].entries =~= pat_bindings(s, p));
            assert(m2.scopes[new as int].parent == Some(scope));
            lemma_visible_prefix(m, m1, scope);
            lemma_visible_prefix(m1, m2, scope);
        },
        None => {
            lemma_visible_prefix(m, m1, scope);
        },
    }
}

/// The condition of a conditional or loop: see [`guard_scopes`].
proof fn lemma_guard_scopes(s: Seq<SyntaxNode>, e: usize, m: ScopeMap, scope: nat)
    requires
        wf_nodes(s),
        e < s.len(),
        sound(s, m),
        scope < m.scopes.len(),
        fresh(m, e + 1, s[e as int].end as int),
    ensures
        sound(s, guard_scopes(s, e, m, scope).0),
        guard_scopes(s, e, m, scope).1 < guard_scopes(s, e, m, scope).0.scopes.len(),
        guard_scopes(s, e, m, scope).0.visible_from(guard_scopes(s, e, m, scope).1)
            == guard_bindings(s, e) + m.visible_from(scope),
        guard_scopes(s, e, m, scope).0.visible_from(scope) == m.visible_from(scope),
        m.scopes.len() <= guard_scopes(s, e, m, scope).0.scopes.len(),
        match first_child(s, e, KindClass::Kind(SyntaxKind::Condition)) {
            Some(c) => e < c < s[e as int].end && c < s.len() && s[c as int].kind
                == SyntaxKind::Condition && s[c as int].parent == Some(e) && walked(
                m,
                guard_scopes(s, e, m, scope).0,
                c + 1,
                s[c as int].end as int,
            ),
            None => guard_scopes(s, e, m, scope).0 == m,
        },
    decreases s.len() - e, 0nat,
{
    let class = KindClass::Kind(SyntaxKind::Condition);
    match first_child(s, e, class) {
        Some(c) => {
            lemma_nth_child(s, e, class, 0);
            lemma_child_parent(s, e, class, 0);
            lemma_nested(s, e as int, c as int);
            lemma_fresh_sub(m, e + 1, s[e as int].end as int, c + 1, s[c as int].end as int);
            lemma_cond_scopes(s, c, m, scope);
            assert(guard_bindings(s, e) + m.visible_from(scope) =~= match first_child(
                s,
                c,
                KindClass::Pat,
            ) {
                Some(p) => pat_bindings(s, p) + m.visible_from(scope),
                None => m.visible_from(scope),
            });
        },
        None => {
            assert(guard_bindings(s, e) + m.visible_from(scope) =~= m.visible_from(scope));
        },
    }
}

/// A block among the children of `e`, walked after a part of the walk that
/// stayed apart from it.
proof fn lemma_child_block(
    s: Seq<SyntaxNode>,
    e: usize,
    b: usize,
    m0: ScopeMap,
    m: ScopeMap,
    scope: nat,
)
    requires
        wf_nodes(s),
        e < b < s[e as int].end,
        e < s.len(),
        s[b as int].kind == SyntaxKind::Block,
        sound(s, m),
        scope < m.scopes.len(),
        walked(m0, m, e + 1, s[e as int].end as int),
        fresh(m, b + 1, s[b as int].end as int),
    ensures
        sound(s, block_scopes(s, b, m, scope)),
        walked(m0, block_scopes(s, b, m, scope), e + 1, s[e as int].end as int),
        walked(m, block_scopes(s, b, m, scope), b + 1, s[b as int].end as int),
    decreases s.len() - e, 0nat,
{
    lemma_nested(s, e as int, b as int);
    lemma_block_scopes(s, b, m, scope);
    lemma_walked_trans(
        m0,
        m,
        block_scopes(s, b, m, scope),
        e + 1,
        s[e as int].end as int,
        b + 1,
        s[b as int].end as int,
        e + 1,
        s[e as int].end as int,
    );
}

/// The walk over an expression that it has not been in: it leaves every
/// mark as it is, marks only nodes inside the expression and takes the
/// bindings of the new scopes from nodes inside the expression. See
/// [`walked`].
pub proof fn lemma_expr_scopes(s: Seq<SyntaxNode>, e: usize, m: ScopeMap, scope: nat)
    requires
        wf_nodes(s),
        e < s.len(),
        sound(s, m),
        scope < m.scopes.len(),
        fresh(m, e + 1, s[e as int].end as int),
    ensures
        sound(s, expr_scopes(s, e, m, scope)),
        walked(m, expr_scopes(s, e, m, scope), e + 1, s[e as int].end as int),
    decreases s.len() - e, 1nat,
{
    let lo = e + 1;
    let hi = s[e as int].end as int;
    let block = KindClass::Kind(SyntaxKind::Block);
    let condition = KindClass::Kind(SyntaxKind::Condition);
    assert(wf_node(s, 0));
    assert(wf_node(s, e as int));
    match s[e as int].kind {
        SyntaxKind::IfExpr => {
            lemma_guard_scopes(s, e, m, scope);
            let (m1, body_scope) = guard_scopes(s, e, m, scope);
            let cond = first_child(s, e, condition);
            assert(walked(m, m1, lo, hi)) by {
                match cond {
                    Some(c) => {
                        lemma_nested(s, e as int, c as int);
                        lemma_walked_trans(m, m, m1, lo, hi, c + 1, s[c as int].end as int, lo, hi);
                    },
                    None => {},
                }
            }
            let b0 = nth_child(s, e, block, 0);
            let b1 = nth_child(s, e, block, 1);
            if b1 is Some {
                lemma_second_sibling(s, (e + 1) as usize, s[e as int].end, block);
            }
            let m2 = match b0 {
                Some(b) => block_scopes(s, b, m1, body_scope),
                None => m1,
            };
            match b0 {
                Some(b) => {
                    lemma_nth_child(s, e, block, 0);
                    lemma_child_parent(s, e, block, 0);
                    lemma_nested(s, e as int, b as int);
                    lemma_fresh_sub(m, lo, hi, b + 1, s[b as int].end as int);
                    match cond {
                        Some(c) => {
                            if c < b {
                                lemma_children_disjoint(s, c, b);
                            } else {
                                lemma_children_disjoint(s, b, c);
                            }
                            lemma_fresh_after(
                                m,
                                m1,
                                c + 1,
                                s[c as int].end as int,
                                b + 1,
                                s[b as int].end as int,
                            );
                        },
                        None => {},
                    }
                    lemma_child_block(s, e, b, m, m1, body_scope);
                },
                None => {},
            }
            assert(sound(s, m2) && walked(m, m2, lo, hi) && m1.scopes.len() <= m2.scopes.len());
            match b1 {
                Some(b) => {
                    lemma_nth_child(s, e, block, 1);
                    lemma_child_parent(s, e, block, 1);
                    lemma_nested(s, e as int, b as int);
                    lemma_fresh_sub(m, lo, hi, b + 1, s[b as int].end as int);
                    match cond {
                        Some(c) => {
                            if c < b {
                                lemma_children_disjoint(s, c, b);
                            } else {
                                lemma_children_disjoint(s, b, c);
                            }
                            lemma_fresh_after(
                                m,
                                m1,
                                c + 1,
                                s[c as int].end as int,
                                b + 1,
                                s[b as int].end as int,
                            );
                        },
                        None => {},
                    }
                    let first = b0->0;
                    lemma_fresh_after(
                        m1,
                        m2,
                        first + 1,
                        s[first as int].end as int,
                        b + 1,
                        s[b as int].end as int,
                    );
                    lemma_child_block(s, e, b, m, m2, scope);
                },
                None => {},
            }
        },
        SyntaxKind::WhileExpr => {
            lemma_guard_scopes(s, e, m, scope);
            let (m1, body_scope) = guard_scopes(s, e, m, scope);
            let cond = first_child(s, e, condition);
            assert(walked(m, m1, lo, hi)) by {
                match cond {
                    Some(c) => {
                        lemma_nested(s, e as int, c as int);
                        lemma_walked_trans(m, m, m1, lo, hi, c + 1, s[c as int].end as int, lo, hi);
                    },
                    None => {},
                }
            }
            match first_child(s, e, block) {
                Some(b) => {
                    lemma_nth_child(s, e, block, 0);
                    lemma_child_parent(s, e, block, 0);
                    lemma_nested(s, e as int, b as int);
                    lemma_fresh_sub(m, lo, hi, b + 1, s[b as int].end as int);
                    match cond {
                        Some(c) => {
                            if c < b {
                                lemma_children_disjoint(s, c, b);
                            } else {
                                lemma_children_disjoint(s, b, c);
                            }
                            lemma_fresh_after(
                                m,
                                m1,
                                c + 1,
                                s[c as int].end as int,
                                b + 1,
                                s[b as int].end as int,
                            );
                        },
                        None => {},
                    }
                    lemma_child_block(s, e, b, m, m1, body_scope);
                },
                None => {},
            }
        },
        SyntaxKind::BlockExpr => {
            match first_child(s, e, block) {
                Some(b) => {
                    lemma_nth_child(s, e, block, 0);
                    lemma_nested(s, e as int, b as int);
                    lemma_fresh_sub(m, lo, hi, b + 1, s[b as int].end as int);
                    lemma_walked_refl(m, lo, hi);
                    lemma_child_block(s, e, b, m, m, scope);
                },
                None => {},
            }
        },
        _ => {
            lemma_children_scopes(s, (e + 1) as usize, s[e as int].end, m, scope);
        },
    }
}

/// The expressions among some siblings: see [`children_scopes`].
proof fn lemma_children_scopes(
    s: Seq<SyntaxNode>,
    c: usize,
    end: usize,
    m: ScopeMap,
    scope: nat,
)
    requires
        wf_nodes(s),
        c <= end <= s.len(),
        sound(s, m),
        scope < m.scopes.len(),
        fresh(m, c as int, end as int),
    ensures
        sound(s, children_scopes(s, c, end, m, scope)),
        walked(m, children_scopes(s, c, end, m, scope), c as int, end as int),
    decreases s.len() - c, 2nat,
{
    if c >= end || end > s.len() || s[c as int].end <= c || s[c as int].end > end {
    } else {
        let next = s[c as int].end;
        let m1 = if s[c as int].kind.spec_is_expr() {
            expr_scopes(s, c, m, scope)
        } else {
            m
        };
        if s[c as int].kind.spec_is_expr() {
            lemma_fresh_sub(m, c as int, end as int, c + 1, next as int);
            lemma_expr_scopes(s, c, m, scope);
        }
        assert(walked(m, m1, c as int, next as int)) by {
            lemma_walked_trans(m, m, m1, c as int, next as int, c + 1, next as int, c as int, next as int);
        }
        lemma_fresh_sub(m, c as int, end as int, next as int, end as int);
        lemma_fresh_after(m, m1, c as int, next as int, next as int, end as int);
        lemma_children_scopes(s, next, end, m1, scope);
        lemma_walked_trans(
            m,
            m1,
            children_scopes(s, next, end, m1, scope),
            c as int,
            next as int,
            next as int,
            end as int,
            c as int,
            end as int,
        );
    }
}

proof fn lemma_params_within(s: Seq<SyntaxNode>, c: usize, end: usize)
    requires
        wf_nodes(s),
    ensures
        nodes_within(params_bindings(s, c, end), c as int, end as int),
    decreases s.len() - c,
{
    if c >= end || end > s.len() || s[c as int].end <= c || s[c as int].end > end {
    } else {
        let next = s[c as int].end;
        lemma_params_within(s, next, end);
        let rest = params_bindings(s, next, end);
        if s[c as int].kind == SyntaxKind::Param {
            match first_child(s, c, KindClass::Pat) {
                Some(p) => {
                    lemma_nth_child(s, c, KindClass::Pat, 0);
                    lemma_nested(s, c as int, p as int);
                    lemma_pat_bindings_within(s, p, c as int, end as int);
                    let own = pat_bindings(s, p);
                    assert forall|j: int| 0 <= j < (own + rest).len() implies c <= (#[trigger] (own
                        + rest)[j]).node < end by {
                        if j < own.len() {
                            assert((own + rest)[j] == own[j]);
                        } else {
                            assert((own + rest)[j] == rest[j - own.len()]);
                        }
                    }
                },
                None => {},
            }
        }
    }
}

/// The shape of the scopes of a function. The scopes are well formed, scope
/// 0 is the root, which has no parent and holds the bindings of the
/// parameters, and every other scope has a parent.
pub proof fn lemma_fn_scopes(s: Seq<SyntaxNode>, fn_def: usize)
    requires
        wf_nodes(s),
        fn_def < s.len(),
    ensures
        sound(s, fn_scopes(s, fn_def)),
        fn_scopes(s, fn_def).wf(),
        fn_scopes(s, fn_def).scopes.len() >= 1,
        fn_scopes(s, fn_def).scopes[0].parent is None,
        fn_scopes(s, fn_def).scopes[0].entries == fn_params(s, fn_def),
        forall|i: int|
            1 <= i < fn_scopes(s, fn_def).scopes.len() ==> (#[trigger] fn_scopes(
                s,
                fn_def,
            ).scopes[i]).parent is Some,
{
    let list = KindClass::Kind(SyntaxKind::ParamList);
    let block = KindClass::Kind(SyntaxKind::Block);
    let m0 = ScopeMap::empty().push_scope(None);
    let m = m0.add_entries(0, fn_params(s, fn_def));
    assert(m.scopes[0].entries =~= fn_params(s, fn_def));
    assert(m.wf());
    assert(sound(s, m));
    assert(wf_node(s, 0));
    assert(wf_node(s, fn_def as int));
    match first_child(s, fn_def, block) {
        Some(b) => {
            lemma_nth_child(s, fn_def, block, 0);
            lemma_child_parent(s, fn_def, block, 0);
            lemma_nested(s, fn_def as int, b as int);
            assert(fresh(m, b + 1, s[b as int].end as int)) by {
                match first_child(s, fn_def, list) {
                    Some(l) => {
                        lemma_nth_child(s, fn_def, list, 0);
                        lemma_child_parent(s, fn_def, list, 0);
                        lemma_nested(s, fn_def as int, l as int);
                        lemma_params_within(s, (l + 1) as usize, s[l as int].end);
                        if l < b {
                            lemma_children_disjoint(s, l, b);
                        } else {
                            lemma_children_disjoint(s, b, l);
                        }
                    },
                    None => {},
                }
            }
            lemma_block_scopes(s, b, m, 0);
        },
        None => {},
    }
}

/// From every scope the chain leads to the root, and what the root holds is
/// visible last.
pub(crate) proof fn lemma_visible_root(m: ScopeMap, x: nat)
    requires
        m.wf(),
        x < m.scopes.len(),
        m.scopes[0].parent is None,
        forall|i: int| 1 <= i < m.scopes.len() ==> (#[trigger] m.scopes[i]).parent is Some,
    ensures
        m.chain_from(x).len() > 0,
        m.chain_from(x).last() == 0,
        m.chain_from(x)[0] == x,
        m.visible_from(x).len() >= m.scopes[0].entries.len(),
        forall|k: int|
            0 <= k < m.scopes[0].entries.len() ==> m.visible_from(x)[m.visible_from(x).len()
                - m.scopes[0].entries.len() + k] == #[trigger] m.scopes[0].entries[k],
    decreases x,
{
    if x != 0 {
        assert(m.scopes[x as int].parent is Some);
        let p = m.scopes[x as int].parent->0;
        lemma_visible_root(m, p);
    }
}

/// The bindings of the declarations among some siblings come from those
/// siblings.
pub(crate) proof fn lemma_lets_within(s: Seq<SyntaxNode>, c: usize, end: usize, upto: usize)
    requires
        wf_nodes(s),
    ensures
        nodes_within(lets_before(s, c, end, upto), c as int, end as int),
    decreases s.len() - c,
{
    if c >= end || end > s.len() || s[c as int].end <= c || s[c as int].end > end || c >= upto {
    } else {
        let next = s[c as int].end;
        lemma_lets_within(s, next, end, upto);
        let rest = lets_before(s, next, end, upto);
        if s[c as int].kind == SyntaxKind::LetStmt {
            let own = let_bindings(s, c);
            match first_child(s, c, KindClass::Pat) {
                Some(p) => {
                    lemma_nth_child(s, c, KindClass::Pat, 0);
                    lemma_nested(s, c as int, p as int);
                    lemma_pat_bindings_within(s, p, c as int, end as int);
                },
                None => {},
            }
            assert forall|j: int| 0 <= j < (rest + own).len() implies c <= (#[trigger] (rest
                + own)[j]).node < end by {
                if j < rest.len() {
                    assert((rest + own)[j] == rest[j]);
                } else {
                    assert((rest + own)[j] == own[j - rest.len()]);
                }
            }
        }
    }
}

/// The root scope of a function, before its body is walked.
proof fn lemma_root_scope(s: Seq<SyntaxNode>, fn_def: usize, b: usize)
    requires
        wf_nodes(s),
        fn_def < s.len(),
        first_child(s, fn_def, KindClass::Kind(SyntaxKind::Block)) == Some(b),
    ensures
        ({
            let m = ScopeMap::empty().push_scope(None).add_entries(0, fn_params(s, fn_def));
            &&& sound(s, m)
            &&& m.scopes.len() == 1
            &&& m.visible_from(0) == fn_params(s, fn_def)
            &&& fresh(m, b + 1, s[b as int].end as int)
            &&& fn_scopes(s, fn_def) == block_scopes(s, b, m, 0)
        }),
        b < s.len(),
        s[b as int].kind == SyntaxKind::Block,
{
    let list = KindClass::Kind(SyntaxKind::ParamList);
    let block = KindClass::Kind(SyntaxKind::Block);
    let m0 = ScopeMap::empty().push_scope(None);
    let m = m0.add_entries(0, fn_params(s, fn_def));
    assert(m.scopes[0].entries =~= fn_params(s, fn_def));
    assert(m.wf());
    assert(sound(s, m));
    assert(wf_node(s, 0));
    assert(wf_node(s, fn_def as int));
    lemma_nth_child(s, fn_def, block, 0);
    lemma_child_parent(s, fn_def, block, 0);
    lemma_nested(s, fn_def as int, b as int);
    assert(fresh(m, b + 1, s[b as int].end as int)) by {
        match first_child(s, fn_def, list) {
            Some(l) => {
                lemma_nth_child(s, fn_def, list, 0);
                lemma_child_parent(s, fn_def, list, 0);
                lemma_nested(s, fn_def as int, l as int);
                lemma_params_within(s, (l + 1) as usize, s[l as int].end);
                if l < b {
                    lemma_children_disjoint(s, l, b);
                } else {
                    lemma_children_disjoint(s, b, l);
                }
            },
            None => {},
        }
    }
}

/// Each marked node bounds a scope in the function `f`, and what is
/// visible at it is what it sees by its place in the function.
pub open spec fn env_ok(s: Seq<SyntaxNode>, f: usize, m: ScopeMap) -> bool {
    forall|n: usize| #[trigger]
        m.scope_for.contains_key(n) ==> bounds_scope(s, f, n) && m.visible_from(m.scope_for[n])
            == expr_env(s, f, n)
}

proof fn lemma_env_walk(s: Seq<SyntaxNode>, f: usize, m0: ScopeMap, m1: ScopeMap, lo: int, hi: int)
    requires
        m0.wf(),
        env_ok(s, f, m0),
        walked(m0, m1, lo, hi),
        forall|n: usize| #[trigger]
            m1.scope_for.contains_key(n) && !m0.scope_for.contains_key(n) ==> bounds_scope(s, f, n)
                && m1.visible_from(m1.scope_for[n]) == expr_env(s, f, n),
    ensures
        env_ok(s, f, m1),
{
    assert forall|n: usize| #[trigger] m1.scope_for.contains_key(n) implies bounds_scope(s, f, n)
        && m1.visible_from(m1.scope_for[n]) == expr_env(s, f, n) by {
        if m0.scope_for.contains_key(n) {
            lemma_visible_prefix(m0, m1, m0.scope_for[n]);
        }
    }
}

/// The declarations before the end of the statement `c` are those of `c`
/// and then those before `c`.
proof fn lemma_lets_snoc(s: Seq<SyntaxNode>, b: usize, from: usize, c: usize)
    requires
        wf_nodes(s),
        b < s.len(),
        b < from <= c < s[b as int].end,
        forall|k: int| b < k < from ==> (#[trigger] s[k]).end <= from,
        s[c as int].parent == Some(b),
    ensures
        lets_before(s, from, s[b as int].end, s[c as int].end) == stmt_bindings(s, c) + lets_before(
            s,
            from,
            s[b as int].end,
            c,
        ),
    decreases s.len() - from,
{
    let end = s[b as int].end;
    assert(wf_node(s, b as int));
    assert(wf_node(s, from as int));
    assert(wf_node(s, c as int));
    lemma_nested(s, b as int, from as int);
    lemma_nested(s, b as int, c as int);
    let stop = s[c as int].end;
    let own = stmt_bindings(s, c);
    if from == c {
        assert(lets_before(s, stop, end, stop) =~= Seq::<Binding>::empty());
        assert(lets_before(s, c, end, c) =~= Seq::<Binding>::empty());
        assert(lets_before(s, c, end, stop) =~= own + lets_before(s, c, end, c));
    } else {
        // `from` is a child of `b`.
        let p = s[from as int].parent->0;
        if p < b {
            assert(s[b as int].end <= from);
        } else if p > b {
            assert(s[p as int].end <= from);
        }
        lemma_children_disjoint(s, from, c);
        let next = s[from as int].end;
        assert forall|k: int| b < k < next implies (#[trigger] s[k]).end <= next by {
            if k > from {
                lemma_nested(s, from as int, k);
            }
        }
        lemma_lets_snoc(s, b, next, c);
        let first = stmt_bindings(s, from);
        assert(lets_before(s, from, end, stop) =~= lets_before(s, next, end, stop) + first);
        assert(lets_before(s, from, end, c) =~= lets_before(s, next, end, c) + first);
        assert((own + lets_before(s, next, end, c)) + first =~= own + (lets_before(
            s,
            next,
            end,
            c,
        ) + first));
    }
}

/// The statements of the block `b` from `c` on keep [`env_ok`]. What is
/// visible from `scope` is the declarations before `c` and what is visible
/// where the block starts.
proof fn lemma_stmts_env(
    s: Seq<SyntaxNode>,
    f: usize,
    b: usize,
    c: usize,
    m: ScopeMap,
    scope: nat,
    klo: int,
    khi: int,
)
    requires
        wf_nodes(s),
        f < b < s.len(),
        s[b as int].kind == SyntaxKind::Block,
        b < c <= s[b as int].end,
        forall|k: int| b < k < c ==> (#[trigger] s[k]).end <= c,
        sound(s, m),
        scope < m.scopes.len(),
        fresh(m, c as int, s[b as int].end as int),
        fresh(m, klo, khi),
        forall|k: int|
            b < k < s[b as int].end && (#[trigger] s[k]).parent == Some(b)
                && s[k].kind.spec_is_stmt() ==> s[k].end <= klo || khi <= k,
        env_ok(s, f, m),
        block_walked(s, f, b),
        m.visible_from(scope) == lets_before(s, (b + 1) as usize, s[b as int].end, c) + block_env(
            s,
            f,
            b,
        ),
    ensures
        env_ok(s, f, stmts_scopes(s, c, s[b as int].end, m, scope).0),
        stmts_scopes(s, c, s[b as int].end, m, scope).0.visible_from(
            stmts_scopes(s, c, s[b as int].end, m, scope).1,
        ) == block_lets(s, b, s[b as int].end) + block_env(s, f, b),
    decreases s.len() - c, 3nat,
{
    let end = s[b as int].end;
    assert(wf_node(s, 0));
    assert(wf_node(s, b as int));
    if c < end {
        lemma_stmt_step(s, b, c, m, scope, klo, khi);
        let next = s[c as int].end;
        let (m1, scope1) = stmt_scopes(s, c, m, scope);
        let here = m.visible_from(scope);
        assert(here == block_lets(s, b, c) + block_env(s, f, b));
        assert(env_ok(s, f, m1)) by {
            match s[c as int].kind {
                SyntaxKind::LetStmt => {
                    match first_child(s, c, KindClass::Expr) {
                        Some(e) => {
                            lemma_visible_prefix(m, m1, scope);
                            assert(expr_env(s, f, e) == here);
                        },
                        None => {},
                    }
                    lemma_env_walk(s, f, m, m1, c as int, next as int);
                },
                SyntaxKind::ExprStmt => match first_child(s, c, KindClass::Expr) {
                    Some(e) => {
                        lemma_nth_child(s, c, KindClass::Expr, 0);
                        lemma_nested(s, c as int, e as int);
                        let m0 = m.mark(e, scope);
                        assert(expr_env(s, f, e) == here);
                        assert(own_bindings_hidden(s, m0, e));
                        lemma_new_mark(s, m, e, scope, c as int, next as int);
                        lemma_visible_prefix(m, m0, scope);
                        lemma_env_walk(s, f, m, m0, c as int, next as int);
                        lemma_fresh_sub(m, c as int, end as int, e + 1, s[e as int].end as int);
                        assert(fresh(m0, e + 1, s[e as int].end as int));
                        lemma_expr_env(s, f, e, m0, scope);
                    },
                    None => {},
                },
                _ => {},
            }
        }
        lemma_lets_snoc(s, b, (b + 1) as usize, c);
        assert(stmt_bindings(s, c) + (lets_before(s, (b + 1) as usize, end, c) + block_env(s, f, b))
            =~= lets_before(s, (b + 1) as usize, end, next) + block_env(s, f, b));
        lemma_stmts_env(s, f, b, next, m1, scope1, klo, khi);
    }
}

/// A block keeps [`env_ok`], where what is visible from `scope` is what is
/// visible where the block starts.
proof fn lemma_block_env(s: Seq<SyntaxNode>, f: usize, b: usize, m: ScopeMap, scope: nat)
    requires
        wf_nodes(s),
        f < b < s.len(),
        s[b as int].kind == SyntaxKind::Block,
        sound(s, m),
        scope < m.scopes.len(),
        fresh(m, b + 1, s[b as int].end as int),
        env_ok(s, f, m),
        block_walked(s, f, b),
        m.visible_from(scope) == block_env(s, f, b),
    ensures
        env_ok(s, f, block_scopes(s, b, m, scope)),
    decreases s.len() - b, 1nat,
{
    let lo = b + 1;
    let end = s[b as int].end;
    let hi = end as int;
    assert(wf_node(s, b as int));
    assert(wf_node(s, 0));
    let trailing = first_child(s, b, KindClass::Expr);
    let (klo, khi) = match trailing {
        Some(e) => (e as int, s[e as int].end as int),
        None => (0int, 0int),
    };
    match trailing {
        Some(e) => {
            lemma_nth_child(s, b, KindClass::Expr, 0);
            lemma_child_parent(s, b, KindClass::Expr, 0);
            lemma_nested(s, b as int, e as int);
            lemma_fresh_sub(m, lo, hi, klo, khi);
            assert forall|k: int|
                b < k < end && (#[trigger] s[k]).parent == Some(b)
                    && s[k].kind.spec_is_stmt() implies s[k].end <= klo || khi <= k by {
                if k < e {
                    lemma_children_disjoint(s, k as usize, e);
                } else if k > e {
                    lemma_children_disjoint(s, e, k as usize);
                }
            }
        },
        None => {
            assert(fresh(m, 0, 0));
        },
    }
    assert(lets_before(s, (b + 1) as usize, end, (b + 1) as usize) + block_env(s, f, b)
        =~= block_env(s, f, b));
    lemma_stmts_scopes(s, b, (b + 1) as usize, m, scope, klo, khi);
    lemma_stmts_env(s, f, b, (b + 1) as usize, m, scope, klo, khi);
    let (m1, scope1) = stmts_scopes(s, (b + 1) as usize, end, m, scope);
    match trailing {
        Some(e) => {
            let m2 = m1.mark(e, scope1);
            assert(own_bindings_hidden(s, m2, e));
            lemma_new_mark(s, m1, e, scope1, lo, hi);
            assert(expr_env(s, f, e) == m1.visible_from(scope1));
            lemma_visible_prefix(m1, m2, scope1);
            lemma_env_walk(s, f, m1, m2, lo, hi);
            assert(fresh(m2, e + 1, khi)) by {
                lemma_fresh_sub(m1, klo, khi, e + 1, khi);
            }
            lemma_expr_env(s, f, e, m2, scope1);
        },
        None => {},
    }
}

/// A block among the children of `e` keeps [`env_ok`].
proof fn lemma_child_block_env(
    s: Seq<SyntaxNode>,
    f: usize,
    e: usize,
    b: usize,
    m: ScopeMap,
    scope: nat,
)
    requires
        wf_nodes(s),
        f < e < b,
        b < s[e as int].end,
        e < s.len(),
        s[b as int].kind == SyntaxKind::Block,
        sound(s, m),
        scope < m.scopes.len(),
        fresh(m, b + 1, s[b as int].end as int),
        env_ok(s, f, m),
        block_walked(s, f, b),
        m.visible_from(scope) == block_env(s, f, b),
    ensures
        env_ok(s, f, block_scopes(s, b, m, scope)),
    decreases s.len() - e, 0nat,
{
    lemma_nested(s, e as int, b as int);
    lemma_block_env(s, f, b, m, scope);
}

/// The condition of the conditional or loop `e` keeps [`env_ok`].
proof fn lemma_guard_env(s: Seq<SyntaxNode>, f: usize, e: usize, m: ScopeMap, scope: nat)
    requires
        wf_nodes(s),
        f < e < s.len(),
        sound(s, m),
        scope < m.scopes.len(),
        fresh(m, e + 1, s[e as int].end as int),
        env_ok(s, f, m),
        expr_walked(s, f, e),
        s[e as int].kind == SyntaxKind::IfExpr || s[e as int].kind == SyntaxKind::WhileExpr,
        m.visible_from(scope) == expr_env(s, f, e),
    ensures
        env_ok(s, f, guard_scopes(s, e, m, scope).0),
    decreases s.len() - e, 0nat,
{
    let class = KindClass::Kind(SyntaxKind::Condition);
    match first_child(s, e, class) {
        Some(c) => {
            lemma_nth_child(s, e, class, 0);
            lemma_child_parent(s, e, class, 0);
            lemma_nested(s, e as int, c as int);
            let lo = c + 1;
            let hi = s[c as int].end as int;
            lemma_fresh_sub(m, e + 1, s[e as int].end as int, lo, hi);
            let m1 = match first_child(s, c, KindClass::Expr) {
                Some(x) => if c < x < s.len() {
                    expr_scopes(s, x, m, scope)
                } else {
                    m
                },
                None => m,
            };
            assert(env_ok(s, f, m1) && sound(s, m1) && walked(m, m1, lo, hi)) by {
                match first_child(s, c, KindClass::Expr) {
                    Some(x) => {
                        lemma_nth_child(s, c, KindClass::Expr, 0);
                        lemma_child_parent(s, c, KindClass::Expr, 0);
                        lemma_nested(s, c as int, x as int);
                        lemma_fresh_sub(m, lo, hi, x + 1, s[x as int].end as int);
                        lemma_expr_scopes(s, x, m, scope);
                        lemma_walked_trans(m, m, m1, lo, hi, x + 1, s[x as int].end as int, lo, hi);
                        assert(expr_env(s, f, x) == expr_env(s, f, e));
                        lemma_expr_env(s, f, x, m, scope);
                    },
                    None => {},
                }
            }
            match first_child(s, c, KindClass::Pat) {
                Some(p) => {
                    lemma_nth_child(s, c, KindClass::Pat, 0);
                    lemma_nested(s, c as int, p as int);
                    lemma_pat_bindings_within(s, p, lo, hi);
                    lemma_new_scope(s, m1, scope, pat_bindings(s, p), lo, hi);
                    let m2 = m1.push_scope(Some(scope)).add_entries(
                        m1.scopes.len() as int,
                        pat_bindings(s, p),
                    );
                    lemma_env_walk(s, f, m1, m2, lo, hi);
                },
                None => {},
            }
        },
        None => {},
    }
}

/// An expression keeps [`env_ok`], where what is visible from `scope` is
/// what the expression sees.
proof fn lemma_expr_env(s: Seq<SyntaxNode>, f: usize, e: usize, m: ScopeMap, scope: nat)
    requires
        wf_nodes(s),
        f < e < s.len(),
        expr_walked(s, f, e),
        sound(s, m),
        scope < m.scopes.len(),
        fresh(m, e + 1, s[e as int].end as int),
        env_ok(s, f, m),
        m.visible_from(scope) == expr_env(s, f, e),
    ensures
        env_ok(s, f, expr_scopes(s, e, m, scope)),
    decreases s.len() - e, 1nat,
{
    let lo = e + 1;
    let hi = s[e as int].end as int;
    let block = KindClass::Kind(SyntaxKind::Block);
    let condition = KindClass::Kind(SyntaxKind::Condition);
    assert(wf_node(s, 0));
    assert(wf_node(s, e as int));
    let here = m.visible_from(scope);
    match s[e as int].kind {
        SyntaxKind::IfExpr => {
            lemma_guard_scopes(s, e, m, scope);
            lemma_guard_env(s, f, e, m, scope);
            let (m1, body_scope) = guard_scopes(s, e, m, scope);
            let cond = first_child(s, e, condition);
            let b0 = nth_child(s, e, block, 0);
            let b1 = nth_child(s, e, block, 1);
            if b1 is Some {
                lemma_second_sibling(s, (e + 1) as usize, s[e as int].end, block);
            }
            let m2 = match b0 {
                Some(b) => block_scopes(s, b, m1, body_scope),
                None => m1,
            };
            match b0 {
                Some(b) => {
                    lemma_nth_child(s, e, block, 0);
                    lemma_child_parent(s, e, block, 0);
                    lemma_nested(s, e as int, b as int);
                    lemma_fresh_sub(m, lo, hi, b + 1, s[b as int].end as int);
                    match cond {
                        Some(c) => {
                            if c < b {
                                lemma_children_disjoint(s, c, b);
                            } else {
                                lemma_children_disjoint(s, b, c);
                            }
                            lemma_fresh_after(
                                m,
                                m1,
                                c + 1,
                                s[c as int].end as int,
                                b + 1,
                                s[b as int].end as int,
                            );
                        },
                        None => {},
                    }
                    assert(block_env(s, f, b) == guard_bindings(s, e) + here);
                    lemma_block_scopes(s, b, m1, body_scope);
                    lemma_child_block_env(s, f, e, b, m1, body_scope);
                },
                None => {},
            }
            assert(env_ok(s, f, m2) && sound(s, m2) && m1.scopes.len() <= m2.scopes.len());
            match b1 {
                Some(b) => {
                    let first = b0->0;
                    lemma_nth_child(s, e, block, 1);
                    lemma_child_parent(s, e, block, 1);
                    lemma_nested(s, e as int, b as int);
                    lemma_fresh_sub(m, lo, hi, b + 1, s[b as int].end as int);
                    match cond {
                        Some(c) => {
                            if c < b {
                                lemma_children_disjoint(s, c, b);
                            } else {
                                lemma_children_disjoint(s, b, c);
                            }
                            lemma_fresh_after(
                                m,
                                m1,
                                c + 1,
                                s[c as int].end as int,
                                b + 1,
                                s[b as int].end as int,
                            );
                        },
                        None => {},
                    }
                    lemma_fresh_after(
                        m1,
                        m2,
                        first + 1,
                        s[first as int].end as int,
                        b + 1,
                        s[b as int].end as int,
                    );
                    lemma_visible_prefix(m1, m2, scope);
                    assert(block_env(s, f, b) == here);
                    lemma_child_block_env(s, f, e, b, m2, scope);
                },
                None => {},
            }
        },
        SyntaxKind::WhileExpr => {
            lemma_guard_scopes(s, e, m, scope);
            lemma_guard_env(s, f, e, m, scope);
            let (m1, body_scope) = guard_scopes(s, e, m, scope);
            let cond = first_child(s, e, condition);
            match first_child(s, e, block) {
                Some(b) => {
                    lemma_nth_child(s, e, block, 0);
                    lemma_child_parent(s, e, block, 0);
                    lemma_nested(s, e as int, b as int);
                    lemma_fresh_sub(m, lo, hi, b + 1, s[b as int].end as int);
                    match cond {
                        Some(c) => {
                            if c < b {
                                lemma_children_disjoint(s, c, b);
                            } else {
                                lemma_children_disjoint(s, b, c);
                            }
                            lemma_fresh_after(
                                m,
                                m1,
                                c + 1,
                                s[c as int].end as int,
                                b + 1,
                                s[b as int].end as int,
                            );
                        },
                        None => {},
                    }
                    assert(block_env(s, f, b) == guard_bindings(s, e) + here);
                    lemma_child_block_env(s, f, e, b, m1, body_scope);
                },
                None => {},
            }
        },
        SyntaxKind::BlockExpr => {
            match first_child(s, e, block) {
                Some(b) => {
                    lemma_nth_child(s, e, block, 0);
                    lemma_child_parent(s, e, block, 0);
                    lemma_nested(s, e as int, b as int);
                    lemma_fresh_sub(m, lo, hi, b + 1, s[b as int].end as int);
                    assert(block_env(s, f, b) == here);
                    lemma_child_block_env(s, f, e, b, m, scope);
                },
                None => {},
            }
        },
        _ => {
            lemma_children_env(s, f, e, (e + 1) as usize, m, scope);
        },
    }
}

/// The expressions among the children of the plain expression `e`, from
/// `c` on, keep [`env_ok`].
proof fn lemma_children_env(
    s: Seq<SyntaxNode>,
    f: usize,
    e: usize,
    c: usize,
    m: ScopeMap,
    scope: nat,
)
    requires
        wf_nodes(s),
        f < e < s.len(),
        is_plain_expr(s[e as int].kind),
        expr_walked(s, f, e),
        e < c <= s[e as int].end,
        forall|k: int| e < k < c ==> (#[trigger] s[k]).end <= c,
        sound(s, m),
        scope < m.scopes.len(),
        fresh(m, c as int, s[e as int].end as int),
        env_ok(s, f, m),
        m.visible_from(scope) == expr_env(s, f, e),
    ensures
        env_ok(s, f, children_scopes(s, c, s[e as int].end, m, scope)),
    decreases s.len() - c, 2nat,
{
    let end = s[e as int].end;
    assert(wf_node(s, 0));
    assert(wf_node(s, e as int));
    if c < end {
        assert(wf_node(s, c as int));
        lemma_nested(s, e as int, c as int);
        let next = s[c as int].end;
        // `c` is a child of `e`.
        let p = s[c as int].parent->0;
        if p < e {
            assert(s[e as int].end <= c);
        } else if p > e {
            assert(s[p as int].end <= c);
        }
        assert forall|k: int| e < k < next implies (#[trigger] s[k]).end <= next by {
            if k > c {
                lemma_nested(s, c as int, k);
            }
        }
        let m1 = if s[c as int].kind.spec_is_expr() {
            expr_scopes(s, c, m, scope)
        } else {
            m
        };
        if s[c as int].kind.spec_is_expr() {
            lemma_fresh_sub(m, c as int, end as int, c + 1, next as int);
            lemma_expr_scopes(s, c, m, scope);
            assert(expr_env(s, f, c) == expr_env(s, f, e));
            lemma_expr_env(s, f, c, m, scope);
            lemma_visible_prefix(m, m1, scope);
        }
        assert(walked(m, m1, c as int, next as int)) by {
            lemma_walked_trans(m, m, m1, c as int, next as int, c + 1, next as int, c as int, next as int);
        }
        lemma_fresh_sub(m, c as int, end as int, next as int, end as int);
        lemma_fresh_after(m, m1, c as int, next as int, next as int, end as int);
        lemma_children_env(s, f, e, next, m1, scope);
    }
}

/// A node that the walk over the function `fn_def` has marked bounds a
/// scope by its place, and what is visible at it is what it sees by its
/// place in the function: see [`expr_env`].
pub proof fn lemma_visible_is_env(s: Seq<SyntaxNode>, fn_def: usize, n: usize)
    requires
        wf_nodes(s),
        fn_def < s.len(),
        fn_scopes(s, fn_def).scope_for.contains_key(n),
    ensures
        bounds_scope(s, fn_def, n),
        visible_at(s, fn_scopes(s, fn_def), n) == expr_env(s, fn_def, n),
{
    match first_child(s, fn_def, KindClass::Kind(SyntaxKind::Block)) {
        Some(b) => {
            lemma_root_scope(s, fn_def, b);
            lemma_nth_child(s, fn_def, KindClass::Kind(SyntaxKind::Block), 0);
            lemma_child_parent(s, fn_def, KindClass::Kind(SyntaxKind::Block), 0);
            let m = ScopeMap::empty().push_scope(None).add_entries(0, fn_params(s, fn_def));
            assert(env_ok(s, fn_def, m));
            assert(block_env(s, fn_def, b) == fn_params(s, fn_def));
            lemma_block_env(s, fn_def, b, m, 0);
        },
        None => {},
    }
}

/// The range of the trailing expression of the block `b`; empty where the
/// block has none.
pub open spec fn trailing_range(s: Seq<SyntaxNode>, b: usize) -> (int, int) {
    match first_child(s, b, KindClass::Expr) {
        Some(e) => (e as int, s[e as int].end as int),
        None => (0, 0),
    }
}

/// The parts of the walk over a block: the statements, and then the
/// trailing expression.
proof fn lemma_block_parts(s: Seq<SyntaxNode>, b: usize, m: ScopeMap, scope: nat)
    requires
        wf_nodes(s),
        b < s.len(),
        s[b as int].kind != SyntaxKind::LetStmt,
        sound(s, m),
        scope < m.scopes.len(),
        fresh(m, b + 1, s[b as int].end as int),
    ensures
        ({
            let end = s[b as int].end;
            let (klo, khi) = trailing_range(s, b);
            let (m1, scope1) = stmts_scopes(s, (b + 1) as usize, end, m, scope);
            &&& b < end <= s.len()
            &&& fresh(m, klo, khi)
            &&& forall|k: int|
                b < k < end && (#[trigger] s[k]).parent == Some(b) && s[k].kind.spec_is_stmt()
                    ==> s[k].end <= klo || khi <= k
            &&& sound(s, m1)
            &&& scope1 < m1.scopes.len()
            &&& walked(m, m1, b + 1, end as int)
            &&& fresh(m1, klo, khi)
            &&& match first_child(s, b, KindClass::Expr) {
                Some(e) => {
                    let m2 = m1.mark(e, scope1);
                    &&& b < e < end
                    &&& s[e as int].parent == Some(b)
                    &&& e < s[e as int].end <= end
                    &&& sound(s, m2)
                    &&& fresh(m2, e + 1, s[e as int].end as int)
                    &&& walked(m1, m2, b + 1, end as int)
                    &&& block_scopes(s, b, m, scope) == expr_scopes(s, e, m2, scope1)
                },
                None => block_scopes(s, b, m, scope) == m1,
            }
        }),
{
    let lo = b + 1;
    let end = s[b as int].end;
    let hi = end as int;
    assert(wf_node(s, b as int));
    assert(wf_node(s, 0));
    let trailing = first_child(s, b, KindClass::Expr);
    let (klo, khi) = trailing_range(s, b);
    match trailing {
        Some(e) => {
            lemma_nth_child(s, b, KindClass::Expr, 0);
            lemma_child_parent(s, b, KindClass::Expr, 0);
            lemma_nested(s, b as int, e as int);
            lemma_fresh_sub(m, lo, hi, klo, khi);
            assert forall|k: int|
                b < k < end && (#[trigger] s[k]).parent == Some(b)
                    && s[k].kind.spec_is_stmt() implies s[k].end <= klo || khi <= k by {
                if k < e {
                    lemma_children_disjoint(s, k as usize, e);
                } else if k > e {
                    lemma_children_disjoint(s, e, k as usize);
                }
            }
        },
        None => {
            assert(fresh(m, 0, 0));
        },
    }
    lemma_stmts_scopes(s, b, (b + 1) as usize, m, scope, klo, khi);
    let (m1, scope1) = stmts_scopes(s, (b + 1) as usize, end, m, scope);
    match trailing {
        Some(e) => {
            let m2 = m1.mark(e, scope1);
            assert(own_bindings_hidden(s, m2, e));
            lemma_new_mark(s, m1, e, scope1, lo, hi);
            assert(fresh(m2, e + 1, khi)) by {
                lemma_fresh_sub(m1, klo, khi, e + 1, khi);
            }
        },
        None => {},
    }
}

/// The walk over the statements of the block `b` comes to its child `c`:
/// the scopes and the scope that it has there.
proof fn lemma_reach_stmt(
    s: Seq<SyntaxNode>,
    b: usize,
    from: usize,
    m: ScopeMap,
    scope: nat,
    klo: int,
    khi: int,
    c: usize,
) -> (r: (ScopeMap, nat))
    requires
        wf_nodes(s),
        b < s.len(),
        b < from <= c < s[b as int].end,
        s[c as int].parent == Some(b),
        forall|k: int| b < k < from ==> (#[trigger] s[k]).end <= from,
        sound(s, m),
        scope < m.scopes.len(),
        fresh(m, from as int, s[b as int].end as int),
        fresh(m, klo, khi),
        forall|k: int|
            b < k < s[b as int].end && (#[trigger] s[k]).parent == Some(b)
                && s[k].kind.spec_is_stmt() ==> s[k].end <= klo || khi <= k,
    ensures
        forall|k: int| b < k < c ==> (#[trigger] s[k]).end <= c,
        sound(s, r.0),
        r.1 < r.0.scopes.len(),
        fresh(r.0, c as int, s[b as int].end as int),
        fresh(r.0, klo, khi),
        stmts_scopes(s, from, s[b as int].end, m, scope) == stmts_scopes(
            s,
            c,
            s[b as int].end,
            r.0,
            r.1,
        ),
    decreases s.len() - from,
{
    if from == c {
        (m, scope)
    } else {
        lemma_stmt_step(s, b, from, m, scope, klo, khi);
        lemma_children_disjoint(s, from, c);
        let (m1, scope1) = stmt_scopes(s, from, m, scope);
        lemma_reach_stmt(s, b, s[from as int].end, m1, scope1, klo, khi, c)
    }
}

/// The scopes after the first block of the conditional or loop `e`.
pub open spec fn after_first_block(s: Seq<SyntaxNode>, e: usize, m: ScopeMap, scope: nat) -> ScopeMap {
    let (m1, body_scope) = guard_scopes(s, e, m, scope);
    match nth_child(s, e, KindClass::Kind(SyntaxKind::Block), 0) {
        Some(b) => block_scopes(s, b, m1, body_scope),
        None => m1,
    }
}

/// The parts of the walk over a conditional or a loop with a condition:
/// the condition, the first block, and for a conditional the second block.
proof fn lemma_guarded_parts(s: Seq<SyntaxNode>, e: usize, m: ScopeMap, scope: nat)
    requires
        wf_nodes(s),
        e < s.len(),
        s[e as int].kind == SyntaxKind::IfExpr || s[e as int].kind == SyntaxKind::WhileExpr,
        sound(s, m),
        scope < m.scopes.len(),
        fresh(m, e + 1, s[e as int].end as int),
    ensures
        ({
            let block = KindClass::Kind(SyntaxKind::Block);
            let lo = e + 1;
            let hi = s[e as int].end as int;
            let (m1, body_scope) = guard_scopes(s, e, m, scope);
            let m2 = after_first_block(s, e, m, scope);
            let m3 = expr_scopes(s, e, m, scope);
            &&& sound(s, m1)
            &&& body_scope < m1.scopes.len()
            &&& scope < m1.scopes.len()
            &&& walked(m, m1, lo, hi)
            &&& sound(s, m2)
            &&& scope < m2.scopes.len()
            &&& walked(m1, m2, lo, hi)
            &&& walked(m2, m3, lo, hi)
            &&& nth_child(s, e, block, 0) matches Some(b) ==> {
                &&& e < b < s[e as int].end
                &&& b < s.len()
                &&& s[b as int].kind == SyntaxKind::Block
                &&& s[b as int].parent == Some(e)
                &&& fresh(m1, b + 1, s[b as int].end as int)
            }
            &&& s[e as int].kind == SyntaxKind::IfExpr ==> (nth_child(s, e, block, 1) matches Some(
                b,
            ) ==> {
                &&& nth_child(s, e, block, 0) is Some
                &&& nth_child(s, e, block, 0) != Some(b)
                &&& e < b < s[e as int].end
                &&& b < s.len()
                &&& s[b as int].kind == SyntaxKind::Block
                &&& s[b as int].parent == Some(e)
                &&& fresh(m2, b + 1, s[b as int].end as int)
                &&& m3 == block_scopes(s, b, m2, scope)
            })
            &&& first_child(s, e, KindClass::Kind(SyntaxKind::Condition)) matches Some(c) ==> (
            first_child(s, c, KindClass::Expr) matches Some(y) ==> {
                &&& e < c < y
                &&& y < s.len()
                &&& s[y as int].end <= s[e as int].end
                &&& s[y as int].parent == Some(c)
                &&& s[c as int].parent == Some(e)
                &&& s[c as int].kind == SyntaxKind::Condition
                &&& fresh(m, y + 1, s[y as int].end as int)
                &&& walked(expr_scopes(s, y, m, scope), m1, lo, hi)
            })
        }),
{
    let block = KindClass::Kind(SyntaxKind::Block);
    let condition = KindClass::Kind(SyntaxKind::Condition);
    let lo = e + 1;
    let hi = s[e as int].end as int;
    assert(wf_node(s, 0));
    assert(wf_node(s, e as int));
    lemma_guard_scopes(s, e, m, scope);
    let (m1, body_scope) = guard_scopes(s, e, m, scope);
    let m2 = after_first_block(s, e, m, scope);
    let m3 = expr_scopes(s, e, m, scope);
    let cond = first_child(s, e, condition);
    match cond {
        Some(c) => {
            lemma_nested(s, e as int, c as int);
            lemma_walked_trans(m, m, m1, lo, hi, c + 1, s[c as int].end as int, lo, hi);
            let clo = c + 1;
            let chi = s[c as int].end as int;
            lemma_fresh_sub(m, lo, hi, clo, chi);
            match first_child(s, c, KindClass::Expr) {
                Some(y) => {
                    lemma_nth_child(s, c, KindClass::Expr, 0);
                    lemma_child_parent(s, c, KindClass::Expr, 0);
                    lemma_nested(s, c as int, y as int);
                    lemma_fresh_sub(m, clo, chi, y + 1, s[y as int].end as int);
                    lemma_expr_scopes(s, y, m, scope);
                    let my = expr_scopes(s, y, m, scope);
                    match first_child(s, c, KindClass::Pat) {
                        Some(p) => {
                            lemma_nth_child(s, c, KindClass::Pat, 0);
                            lemma_nested(s, c as int, p as int);
                            lemma_pat_bindings_within(s, p, lo, hi);
                            lemma_new_scope(s, my, scope, pat_bindings(s, p), lo, hi);
                        },
                        None => {
                            lemma_walked_refl(my, lo, hi);
                        },
                    }
                },
                None => {},
            }
        },
        None => {
            lemma_walked_refl(m, lo, hi);
        },
    }
    let b0 = nth_child(s, e, block, 0);
    let b1 = nth_child(s, e, block, 1);
    if b1 is Some {
        lemma_second_sibling(s, (e + 1) as usize, s[e as int].end, block);
    }
    match b0 {
        Some(b) => {
            lemma_nth_child(s, e, block, 0);
            lemma_child_parent(s, e, block, 0);
            lemma_nested(s, e as int, b as int);
            lemma_fresh_sub(m, lo, hi, b + 1, s[b as int].end as int);
            match cond {
                Some(c) => {
                    if c < b {
                        lemma_children_disjoint(s, c, b);
                    } else {
                        lemma_children_disjoint(s, b, c);
                    }
                    lemma_fresh_after(
                        m,
                        m1,
                        c + 1,
                        s[c as int].end as int,
                        b + 1,
                        s[b as int].end as int,
                    );
                },
                None => {},
            }
            lemma_block_scopes(s, b, m1, body_scope);
            lemma_walked_trans(m1, m1, m2, lo, hi, b + 1, s[b as int].end as int, lo, hi);
        },
        None => {
            lemma_walked_refl(m1, lo, hi);
        },
    }
    if s[e as int].kind == SyntaxKind::IfExpr {
        match b1 {
            Some(b) => {
                let first = b0->0;
                lemma_nth_child(s, e, block, 1);
                lemma_child_parent(s, e, block, 1);
                lemma_nested(s, e as int, b as int);
                lemma_fresh_sub(m, lo, hi, b + 1, s[b as int].end as int);
                match cond {
                    Some(c) => {
                        if c < b {
                            lemma_children_disjoint(s, c, b);
                        } else {
                            lemma_children_disjoint(s, b, c);
                        }
                        lemma_fresh_after(
                            m,
                            m1,
                            c + 1,
                            s[c as int].end as int,
                            b + 1,
                            s[b as int].end as int,
                        );
                    },
                    None => {},
                }
                lemma_fresh_after(
                    m1,
                    m2,
                    first + 1,
                    s[first as int].end as int,
                    b + 1,
                    s[b as int].end as int,
                );
                lemma_block_scopes(s, b, m2, scope);
                lemma_walked_trans(m2, m2, m3, lo, hi, b + 1, s[b as int].end as int, lo, hi);
            },
            None => {
                lemma_walked_refl(m2, lo, hi);
            },
        }
    } else {
        assert(m3 == m2);
        lemma_walked_refl(m2, lo, hi);
    }
}

/// The walk over the children of the plain expression `e` comes to its
/// child `c`: the scopes that it has there.
proof fn lemma_reach_child(
    s: Seq<SyntaxNode>,
    e: usize,
    from: usize,
    m: ScopeMap,
    scope: nat,
    c: usize,
) -> (r: ScopeMap)
    requires
        wf_nodes(s),
        e < s.len(),
        e < from <= c < s[e as int].end,
        s[c as int].parent == Some(e),
        forall|k: int| e < k < from ==> (#[trigger] s[k]).end <= from,
        sound(s, m),
        scope < m.scopes.len(),
        fresh(m, from as int, s[e as int].end as int),
    ensures
        sound(s, r),
        scope < r.scopes.len(),
        fresh(r, c as int, s[e as int].end as int),
        children_scopes(s, from, s[e as int].end, m, scope) == children_scopes(
            s,
            c,
            s[e as int].end,
            r,
            scope,
        ),
    decreases s.len() - from,
{
    if from == c {
        m
    } else {
        let end = s[e as int].end;
        assert(wf_node(s, 0));
        assert(wf_node(s, e as int));
        assert(wf_node(s, from as int));
        lemma_nested(s, e as int, from as int);
        let next = s[from as int].end;
        // `from` is a child of `e`.
        let p = s[from as int].parent->0;
        if p < e {
            assert(s[e as int].end <= from);
        } else if p > e {
            assert(s[p as int].end <= from);
        }
        lemma_children_disjoint(s, from, c);
        assert forall|k: int| e < k < next implies (#[trigger] s[k]).end <= next by {
            if k > from {
                lemma_nested(s, from as int, k);
            }
        }
        let m1 = if s[from as int].kind.spec_is_expr() {
            expr_scopes(s, from, m, scope)
        } else {
            m
        };
        if s[from as int].kind.spec_is_expr() {
            lemma_fresh_sub(m, from as int, end as int, from + 1, next as int);
            lemma_expr_scopes(s, from, m, scope);
        }
        assert(walked(m, m1, from as int, next as int)) by {
            lemma_walked_trans(
                m,
                m,
                m1,
                from as int,
                next as int,
                from + 1,
                next as int,
                from as int,
                next as int,
            );
        }
        lemma_fresh_sub(m, from as int, end as int, next as int, end as int);
        lemma_fresh_after(m, m1, from as int, next as int, next as int, end as int);
        lemma_reach_child(s, e, next, m1, scope, c)
    }
}

/// The walk over the function `f` comes to the expression `e` with the
/// scopes `m` and the scope `scope`, and what it makes of `e` stays to the
/// end.
pub open spec fn reaches_expr(s: Seq<SyntaxNode>, f: usize, e: usize, m: ScopeMap, scope: nat) -> bool {
    &&& sound(s, m)
    &&& scope < m.scopes.len()
    &&& fresh(m, e + 1, s[e as int].end as int)
    &&& walked(expr_scopes(s, e, m, scope), fn_scopes(s, f), 0, s.len() as int)
}

/// The walk over the function `f` comes to the block `b` with the scopes
/// `m` and the scope `scope`, and what it makes of `b` stays to the end.
pub open spec fn reaches_block(s: Seq<SyntaxNode>, f: usize, b: usize, m: ScopeMap, scope: nat) -> bool {
    &&& sound(s, m)
    &&& scope < m.scopes.len()
    &&& fresh(m, b + 1, s[b as int].end as int)
    &&& walked(block_scopes(s, b, m, scope), fn_scopes(s, f), 0, s.len() as int)
}

/// The walk comes to every block that it is to walk.
proof fn lemma_reach_block(s: Seq<SyntaxNode>, f: usize, b: usize) -> (r: (ScopeMap, nat))
    requires
        wf_nodes(s),
        f < s.len(),
        block_walked(s, f, b),
    ensures
        reaches_block(s, f, b, r.0, r.1),
    decreases b,
{
    let block = KindClass::Kind(SyntaxKind::Block);
    let all = s.len() as int;
    let last = fn_scopes(s, f);
    assert(wf_node(s, 0));
    assert(wf_node(s, b as int));
    let p = s[b as int].parent->0;
    if p == f {
        lemma_root_scope(s, f, b);
        lemma_walked_refl(last, 0, all);
        (ScopeMap::empty().push_scope(None).add_entries(0, fn_params(s, f)), 0)
    } else {
        let (m, scope) = lemma_reach_expr(s, f, p);
        let kind = s[p as int].kind;
        let lo = p + 1;
        let hi = s[p as int].end as int;
        assert(wf_node(s, p as int));
        let m3 = expr_scopes(s, p, m, scope);
        if (kind == SyntaxKind::IfExpr || kind == SyntaxKind::WhileExpr) && nth_child(
            s,
            p,
            block,
            0,
        ) == Some(b) {
            lemma_guarded_parts(s, p, m, scope);
            let (m1, body_scope) = guard_scopes(s, p, m, scope);
            let m2 = after_first_block(s, p, m, scope);
            lemma_walked_trans(m2, m3, last, lo, hi, 0, all, 0, all);
            (m1, body_scope)
        } else if kind == SyntaxKind::IfExpr && nth_child(s, p, block, 1) == Some(b) {
            lemma_guarded_parts(s, p, m, scope);
            (after_first_block(s, p, m, scope), scope)
        } else {
            lemma_nth_child(s, p, block, 0);
            lemma_nested(s, p as int, b as int);
            lemma_fresh_sub(m, lo, hi, b + 1, s[b as int].end as int);
            (m, scope)
        }
    }
}

/// The walk comes to every expression that it is to walk.
proof fn lemma_reach_expr(s: Seq<SyntaxNode>, f: usize, e: usize) -> (r: (ScopeMap, nat))
    requires
        wf_nodes(s),
        f < s.len(),
        expr_walked(s, f, e),
    ensures
        reaches_expr(s, f, e, r.0, r.1),
    decreases e,
{
    let all = s.len() as int;
    let last = fn_scopes(s, f);
    assert(wf_node(s, 0));
    assert(wf_node(s, e as int));
    let p = s[e as int].parent->0;
    let kind = s[p as int].kind;
    assert(wf_node(s, p as int));
    lemma_nested(s, p as int, e as int);
    if kind == SyntaxKind::Block {
        let (m, scope) = lemma_reach_block(s, f, p);
        lemma_block_parts(s, p, m, scope);
        let (m1, scope1) = stmts_scopes(s, (p + 1) as usize, s[p as int].end, m, scope);
        (m1.mark(e, scope1), scope1)
    } else if kind == SyntaxKind::ExprStmt {
        let b = s[p as int].parent->0;
        assert(wf_node(s, b as int));
        assert(block_walked(s, f, b));
        let (m, scope) = lemma_reach_block(s, f, b);
        let end = s[b as int].end;
        let next = s[p as int].end;
        lemma_block_parts(s, b, m, scope);
        let (klo, khi) = trailing_range(s, b);
        let (m1, scope1) = stmts_scopes(s, (b + 1) as usize, end, m, scope);
        let (mc, sc) = lemma_reach_stmt(s, b, (b + 1) as usize, m, scope, klo, khi, p);
        lemma_stmt_step(s, b, p, mc, sc, klo, khi);
        let m0 = mc.mark(e, sc);
        let me = expr_scopes(s, e, m0, sc);
        assert(stmt_scopes(s, p, mc, sc) == (me, sc));
        assert(own_bindings_hidden(s, m0, e));
        lemma_fresh_sub(mc, p as int, end as int, p as int, next as int);
        lemma_new_mark(s, mc, e, sc, p as int, next as int);
        lemma_fresh_sub(mc, p as int, end as int, e + 1, s[e as int].end as int);
        assert(fresh(m0, e + 1, s[e as int].end as int));
        // The rest of the statements, and the trailing expression.
        lemma_stmts_scopes(s, b, next, me, sc, klo, khi);
        assert(stmts_scopes(s, next, end, me, sc) == (m1, scope1));
        let done = block_scopes(s, b, m, scope);
        assert(walked(m1, done, b + 1, end as int)) by {
            match first_child(s, b, KindClass::Expr) {
                Some(t) => {
                    let m2 = m1.mark(t, scope1);
                    lemma_expr_scopes(s, t, m2, scope1);
                    lemma_walked_trans(
                        m1,
                        m2,
                        done,
                        b + 1,
                        end as int,
                        t + 1,
                        s[t as int].end as int,
                        b + 1,
                        end as int,
                    );
                },
                None => {
                    lemma_walked_refl(m1, b + 1, end as int);
                },
            }
        }
        lemma_walked_trans(me, m1, done, next as int, end as int, b + 1, end as int, 0, all);
        lemma_walked_trans(me, done, last, 0, all, 0, all, 0, all);
        (m0, sc)
    } else if kind == SyntaxKind::Condition {
        let g = s[p as int].parent->0;
        assert(wf_node(s, g as int));
        let (m, scope) = lemma_reach_expr(s, f, g);
        lemma_guarded_parts(s, g, m, scope);
        let lo = g + 1;
        let hi = s[g as int].end as int;
        let me = expr_scopes(s, e, m, scope);
        let (m1, body_scope) = guard_scopes(s, g, m, scope);
        let m2 = after_first_block(s, g, m, scope);
        let m3 = expr_scopes(s, g, m, scope);
        lemma_walked_trans(me, m1, m2, lo, hi, lo, hi, lo, hi);
        lemma_walked_trans(me, m2, m3, lo, hi, lo, hi, 0, all);
        lemma_walked_trans(me, m3, last, 0, all, 0, all, 0, all);
        (m, scope)
    } else {
        let (m, scope) = lemma_reach_expr(s, f, p);
        let end = s[p as int].end;
        let next = s[e as int].end;
        let mc = lemma_reach_child(s, p, (p + 1) as usize, m, scope, e);
        let me = expr_scopes(s, e, mc, scope);
        lemma_fresh_sub(mc, e as int, end as int, e + 1, next as int);
        lemma_expr_scopes(s, e, mc, scope);
        lemma_fresh_sub(mc, e as int, end as int, next as int, end as int);
        lemma_fresh_after(mc, me, e + 1, next as int, next as int, end as int);
        lemma_children_scopes(s, next, end, me, scope);
        let done = expr_scopes(s, p, m, scope);
        assert(done == children_scopes(s, next, end, me, scope));
        lemma_walked_trans(me, done, last, next as int, end as int, 0, all, 0, all);
        (mc, scope)
    }
}

/// The walk marks every node that bounds a scope.
pub proof fn lemma_boundary_is_marked(s: Seq<SyntaxNode>, fn_def: usize, n: usize)
    requires
        wf_nodes(s),
        fn_def < s.len(),
        bounds_scope(s, fn_def, n),
    ensures
        fn_scopes(s, fn_def).scope_for.contains_key(n),
{
    assert(wf_node(s, 0));
    assert(wf_node(s, n as int));
    let p = s[n as int].parent->0;
    assert(wf_node(s, p as int));
    if s[p as int].kind == SyntaxKind::Block {
        let (m, scope) = lemma_reach_block(s, fn_def, p);
        lemma_block_sees(s, p, m, scope, s[p as int].end, n);
    } else {
        let b = s[p as int].parent->0;
        let (m, scope) = lemma_reach_block(s, fn_def, b);
        lemma_block_sees(s, b, m, scope, p, n);
    }
}

/// The nodes that the walk over a function marks are those that bound a
/// scope in the function.
pub proof fn lemma_marks(s: Seq<SyntaxNode>, fn_def: usize, n: usize)
    requires
        wf_nodes(s),
        fn_def < s.len(),
    ensures
        fn_scopes(s, fn_def).scope_for.contains_key(n) <==> bounds_scope(s, fn_def, n),
{
    if fn_scopes(s, fn_def).scope_for.contains_key(n) {
        lemma_visible_is_env(s, fn_def, n);
    }
    if bounds_scope(s, fn_def, n) {
        lemma_boundary_is_marked(s, fn_def, n);
    }
}

/// What the scopes of a function make visible at a node is what the tree
/// says: the names that the nearest node sees that bounds a scope.
pub proof fn lemma_visible_in(s: Seq<SyntaxNode>, fn_def: usize, node: usize)
    requires
        wf_nodes(s),
        fn_def < s.len(),
    ensures
        visible_at(s, fn_scopes(s, fn_def), node) == visible_in(s, fn_def, node),
        scope_of(s, fn_scopes(s, fn_def).scope_for, node) is Some <==> boundary_of(
            s,
            fn_def,
            node,
        ) is Some,
    decreases node,
{
    lemma_marks(s, fn_def, node);
    if fn_scopes(s, fn_def).scope_for.contains_key(node) {
        lemma_visible_is_env(s, fn_def, node);
    } else if node < s.len() {
        match s[node as int].parent {
            Some(p) => {
                if p < node {
                    lemma_visible_in(s, fn_def, p);
                }
            },
            None => {},
        }
    }
}

/// The chain `chain` ends in the chain `base`, and the scopes that come
/// before `base` in it are none of the first `floor` scopes.
pub open spec fn ends_with(chain: Seq<nat>, base: Seq<nat>, floor: nat) -> bool {
    &&& chain.len() >= base.len()
    &&& chain.skip(chain.len() - base.len()) == base
    &&& forall|i: int| 0 <= i < chain.len() - base.len() ==> #[trigger] chain[i] >= floor
}

proof fn lemma_ends_with_trans(a: Seq<nat>, b: Seq<nat>, c: Seq<nat>, fb: nat, fc: nat)
    requires
        ends_with(a, b, fb),
        ends_with(b, c, fc),
        fc <= fb,
    ensures
        ends_with(a, c, fc),
{
    let ka = a.len() - b.len();
    let kb = b.len() - c.len();
    assert(a.skip(a.len() - c.len()) =~= a.skip(ka).skip(kb));
    assert forall|i: int| 0 <= i < a.len() - c.len() implies #[trigger] a[i] >= fc by {
        if i >= ka {
            assert(a[i] == a.skip(ka)[i - ka]);
        }
    }
}

proof fn lemma_ends_with_self(a: Seq<nat>, floor: nat)
    ensures
        ends_with(a, a, floor),
{
    assert(a.skip(0) =~= a);
}

/// The chain of the scope that is active after the statement at `c` ends
/// in the chain of the scope that was active before it.
proof fn lemma_stmt_chain(
    s: Seq<SyntaxNode>,
    b: usize,
    c: usize,
    m: ScopeMap,
    scope: nat,
    klo: int,
    khi: int,
)
    requires
        wf_nodes(s),
        b < s.len(),
        b < c < s[b as int].end,
        forall|k: int| b < k < c ==> (#[trigger] s[k]).end <= c,
        sound(s, m),
        scope < m.scopes.len(),
        fresh(m, c as int, s[b as int].end as int),
        fresh(m, klo, khi),
        forall|k: int|
            b < k < s[b as int].end && (#[trigger] s[k]).parent == Some(b)
                && s[k].kind.spec_is_stmt() ==> s[k].end <= klo || khi <= k,
    ensures
        ends_with(
            stmt_scopes(s, c, m, scope).0.chain_from(stmt_scopes(s, c, m, scope).1),
            m.chain_from(scope),
            m.scopes.len(),
        ),
        m.scopes.len() <= stmt_scopes(s, c, m, scope).0.scopes.len(),
{
    lemma_stmt_step(s, b, c, m, scope, klo, khi);
    let (m1, scope1) = stmt_scopes(s, c, m, scope);
    lemma_visible_prefix(m, m1, scope);
    if s[c as int].kind == SyntaxKind::LetStmt {
        lemma_let_grows(s, c, m, scope);
        let new = m.scopes.len();
        assert(m1.scopes[new as int].parent == Some(scope));
        let chain = m1.chain_from(new);
        assert(chain =~= seq![new] + m.chain_from(scope));
        assert(chain.skip(1) =~= m.chain_from(scope));
    } else {
        lemma_ends_with_self(m.chain_from(scope), m.scopes.len());
    }
}

/// The chain of the scope of an expression of the statement `target` among
/// the children of `b`, and the chain of the scope that is active after the
/// statements, end in the chain of the scope that the walk from `c` starts
/// with.
proof fn lemma_stmts_chain(
    s: Seq<SyntaxNode>,
    b: usize,
    c: usize,
    m: ScopeMap,
    scope: nat,
    klo: int,
    khi: int,
    target: usize,
    e: usize,
)
    requires
        wf_nodes(s),
        b < s.len(),
        b < c <= s[b as int].end,
        forall|k: int| b < k < c ==> (#[trigger] s[k]).end <= c,
        sound(s, m),
        scope < m.scopes.len(),
        fresh(m, c as int, s[b as int].end as int),
        fresh(m, klo, khi),
        forall|k: int|
            b < k < s[b as int].end && (#[trigger] s[k]).parent == Some(b)
                && s[k].kind.spec_is_stmt() ==> s[k].end <= klo || khi <= k,
        target == s[b as int].end || (c <= target < s[b as int].end && s[target as int].parent
            == Some(b) && s[target as int].kind.spec_is_stmt() && first_child(
            s,
            target,
            KindClass::Expr,
        ) == Some(e)),
    ensures
        ({
            let (m2, scope2) = stmts_scopes(s, c, s[b as int].end, m, scope);
            &&& ends_with(m2.chain_from(scope2), m.chain_from(scope), m.scopes.len())
            &&& target != s[b as int].end ==> m2.scope_for.contains_key(e) && ends_with(
                m2.chain_from(m2.scope_for[e]),
                m.chain_from(scope),
                m.scopes.len(),
            )
        }),
    decreases s.len() - c,
{
    let end = s[b as int].end;
    if c >= end {
        lemma_ends_with_self(m.chain_from(scope), m.scopes.len());
    } else {
        lemma_stmt_step(s, b, c, m, scope, klo, khi);
        lemma_stmt_chain(s, b, c, m, scope, klo, khi);
        let next = s[c as int].end;
        let (m1, scope1) = stmt_scopes(s, c, m, scope);
        let (m2, scope2) = stmts_scopes(s, next, end, m1, scope1);
        lemma_stmts_scopes(s, b, next, m1, scope1, klo, khi);
        if target != end && c == target {
            lemma_stmts_chain(s, b, next, m1, scope1, klo, khi, end, e);
            lemma_ends_with_trans(
                m2.chain_from(scope2),
                m1.chain_from(scope1),
                m.chain_from(scope),
                m1.scopes.len(),
                m.scopes.len(),
            );
            assert(m2.scope_for.contains_key(e) && m2.scope_for[e] == scope);
            lemma_visible_prefix(m, m1, scope);
            lemma_visible_prefix(m1, m2, scope);
            lemma_ends_with_self(m.chain_from(scope), m.scopes.len());
        } else {
            if target != end {
                lemma_children_disjoint(s, c, target);
            }
            lemma_stmts_chain(s, b, next, m1, scope1, klo, khi, target, e);
            lemma_ends_with_trans(
                m2.chain_from(scope2),
                m1.chain_from(scope1),
                m.chain_from(scope),
                m1.scopes.len(),
                m.scopes.len(),
            );
            if target != end {
                lemma_ends_with_trans(
                    m2.chain_from(m2.scope_for[e]),
                    m1.chain_from(scope1),
                    m.chain_from(scope),
                    m1.scopes.len(),
                    m.scopes.len(),
                );
            }
        }
    }
}

/// The scope chain of an expression of a block. When a block is walked,
/// the chain of each expression that stands in it ends in the chain of the
/// scope that the block was entered with, and what comes before that in the
/// chain are scopes that the walk over the block has made.
pub proof fn lemma_block_chain(
    s: Seq<SyntaxNode>,
    b: usize,
    m: ScopeMap,
    scope: nat,
    upto: usize,
    x: usize,
)
    requires
        wf_nodes(s),
        b < s.len(),
        s[b as int].kind != SyntaxKind::LetStmt,
        sound(s, m),
        scope < m.scopes.len(),
        fresh(m, b + 1, s[b as int].end as int),
        is_block_expr(s, b, upto, x),
    ensures
        block_scopes(s, b, m, scope).scope_for.contains_key(x),
        ends_with(
            scope_chain(s, block_scopes(s, b, m, scope), x),
            m.chain_from(scope),
            m.scopes.len(),
        ),
{
    let end = s[b as int].end;
    lemma_block_parts(s, b, m, scope);
    let (klo, khi) = trailing_range(s, b);
    let (m1, scope1) = stmts_scopes(s, (b + 1) as usize, end, m, scope);
    let done = block_scopes(s, b, m, scope);
    assert(wf_node(s, 0));
    assert(wf_node(s, b as int));
    if upto != end {
        assert(wf_node(s, upto as int));
    }
    lemma_stmts_chain(s, b, (b + 1) as usize, m, scope, klo, khi, upto, x);
    match first_child(s, b, KindClass::Expr) {
        Some(t) => {
            let m2 = m1.mark(t, scope1);
            lemma_expr_scopes(s, t, m2, scope1);
            assert(done == expr_scopes(s, t, m2, scope1));
            if upto == end {
                assert(x == t);
                assert(m2.scope_for.contains_key(x) && m2.scope_for[x] == scope1);
                assert(done.scope_for.contains_key(x) && done.scope_for[x] == scope1);
                lemma_visible_prefix(m1, m2, scope1);
                lemma_visible_prefix(m2, done, scope1);
                assert(scope_chain(s, done, x) == m1.chain_from(scope1));
            } else {
                let y = m1.scope_for[x];
                assert(m1.scope_for.contains_key(x));
                assert(y < m1.scopes.len());
                assert(m2.scope_for.contains_key(x) && m2.scope_for[x] == y);
                assert(done.scope_for.contains_key(x) && done.scope_for[x] == y);
                lemma_visible_prefix(m1, m2, y);
                lemma_visible_prefix(m2, done, y);
                assert(scope_chain(s, done, x) == m1.chain_from(y));
            }
        },
        None => {
            assert(done == m1);
            assert(upto != end);
        },
    }
}

/// The scope of a condition. When a conditional or a loop whose condition
/// has a pattern is walked in the scope `scope`, one scope is made for the
/// pattern; it lies inside `scope` and holds the bindings of the pattern in
/// their order. It is on the scope chain of every expression that stands in
/// the block that the condition guards.
pub proof fn lemma_guarded_chain(
    s: Seq<SyntaxNode>,
    e: usize,
    m: ScopeMap,
    scope: nat,
    block: usize,
    upto: usize,
    x: usize,
)
    requires
        wf_nodes(s),
        e < s.len(),
        s[e as int].kind == SyntaxKind::IfExpr || s[e as int].kind == SyntaxKind::WhileExpr,
        sound(s, m),
        scope < m.scopes.len(),
        fresh(m, e + 1, s[e as int].end as int),
        first_child(s, e, KindClass::Kind(SyntaxKind::Condition)) matches Some(c) && first_child(
            s,
            c,
            KindClass::Pat,
        ) is Some,
        nth_child(s, e, KindClass::Kind(SyntaxKind::Block), 0) == Some(block),
        is_block_expr(s, block, upto, x),
    ensures
        ({
            let n = guard_scopes(s, e, m, scope).1;
            let done = expr_scopes(s, e, m, scope);
            &&& m.scopes.len() <= n < done.scopes.len()
            &&& done.scopes[n as int].parent == Some(scope)
            &&& done.scopes[n as int].entries == guard_bindings(s, e)
            &&& done.scope_for.contains_key(x)
            &&& scope_chain(s, done, x).contains(n)
            &&& scope_chain(s, done, x).contains(scope)
        }),
{
    let c = first_child(s, e, KindClass::Kind(SyntaxKind::Condition))->0;
    lemma_guarded_parts(s, e, m, scope);
    lemma_nth_child(s, e, KindClass::Kind(SyntaxKind::Condition), 0);
    lemma_cond_grows(s, c, m, scope);
    let (m1, n) = guard_scopes(s, e, m, scope);
    let m2 = after_first_block(s, e, m, scope);
    let done = expr_scopes(s, e, m, scope);
    assert(m1.scopes[n as int].parent == Some(scope));
    assert(m2.scopes[n as int] == m1.scopes[n as int]);
    assert(done.scopes[n as int] == m2.scopes[n as int]);
    lemma_block_chain(s, block, m1, n, upto, x);
    let y = m2.scope_for[x];
    lemma_visible_prefix(m2, done, y);
    lemma_visible_prefix(m, m1, scope);
    let base = m1.chain_from(n);
    let chain = scope_chain(s, done, x);
    assert(base =~= seq![n] + m.chain_from(scope));
    assert(m.chain_from(scope)[0] == scope);
    let k = chain.len() - base.len();
    assert(chain[k] == chain.skip(k)[0]);
    assert(chain[k + 1] == chain.skip(k)[1]);
}

/// The second block of a conditional is outside the scope of the
/// condition: the scope that is made for the pattern of the condition is on
/// the scope chain of no expression that stands in that block.
pub proof fn lemma_else_chain(
    s: Seq<SyntaxNode>,
    e: usize,
    m: ScopeMap,
    scope: nat,
    block: usize,
    upto: usize,
    x: usize,
)
    requires
        wf_nodes(s),
        e < s.len(),
        s[e as int].kind == SyntaxKind::IfExpr,
        sound(s, m),
        scope < m.scopes.len(),
        fresh(m, e + 1, s[e as int].end as int),
        first_child(s, e, KindClass::Kind(SyntaxKind::Condition)) matches Some(c) && first_child(
            s,
            c,
            KindClass::Pat,
        ) is Some,
        nth_child(s, e, KindClass::Kind(SyntaxKind::Block), 1) == Some(block),
        is_block_expr(s, block, upto, x),
    ensures
        ({
            let n = guard_scopes(s, e, m, scope).1;
            let done = expr_scopes(s, e, m, scope);
            &&& done.scope_for.contains_key(x)
            &&& !scope_chain(s, done, x).contains(n)
            &&& scope_chain(s, done, x).contains(scope)
        }),
{
    let c = first_child(s, e, KindClass::Kind(SyntaxKind::Condition))->0;
    lemma_guarded_parts(s, e, m, scope);
    lemma_nth_child(s, e, KindClass::Kind(SyntaxKind::Condition), 0);
    lemma_cond_grows(s, c, m, scope);
    let (m1, n) = guard_scopes(s, e, m, scope);
    let m2 = after_first_block(s, e, m, scope);
    let done = expr_scopes(s, e, m, scope);
    lemma_block_chain(s, block, m2, scope, upto, x);
    lemma_visible_prefix(m, m1, scope);
    lemma_visible_prefix(m1, m2, scope);
    crate::scopes::lemma_chain_in_range(m, scope);
    let base = m.chain_from(scope);
    let chain = scope_chain(s, done, x);
    let k = chain.len() - base.len();
    assert(base[0] == scope);
    assert(chain[k] == chain.skip(k)[0]);
    assert forall|i: int| 0 <= i < chain.len() implies chain[i] != n by {
        if i >= k {
            assert(chain[i] == chain.skip(k)[i - k]);
        }
    }
}

} // verus!
