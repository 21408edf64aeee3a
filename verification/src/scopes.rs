//! The lexical scopes of one function body.
//!
//! Scopes live in an append-only arena, each with a link to its parent. A
//! second table says which scope is active for the syntax nodes that bound a
//! scope: statement bodies, branch bodies and initializers. The scope of any
//! other node is that of its nearest marked ancestor.
//!
//! What the scopes are is said twice here. [`fn_scopes`] and the functions
//! that it is made of follow the walk that builds the arena, scope by scope.
//! [`visible_in`] says what is visible at a node by the place of the node in
//! the tree alone. The two agree: see `scope_proofs`.

use crate::syntax::{
    first_child, lemma_nested, nth_child, KindClass, SyntaxKind, SyntaxNode, SyntaxTree,
};
use crate::visibility::{
    binding_of, bindings_in, fn_params, params_bindings, pat_bindings, visible_in, Binding,
};
use crate::scope_proofs::{
    lemma_block_grows, lemma_cond_grows, lemma_expr_grows, lemma_fn_scopes, lemma_visible_in,
};
use std::collections::HashMap;
use vstd::prelude::*;

verus! {

broadcast use vstd::std_specs::hash::group_hash_axioms;

/// The index of a scope in its arena.
pub type ScopeId = usize;

/// A scope id as a number.
pub open spec fn id_view(id: Option<ScopeId>) -> Option<nat> {
    match id {
        Some(x) => Some(x as nat),
        None => None,
    }
}

/// Scope ids as numbers.
pub open spec fn ids_view(ids: Seq<ScopeId>) -> Seq<nat> {
    ids.map_values(|x: ScopeId| x as nat)
}

/// A scope: its parent, if it has one, and the names it introduces, in order.
#[verifier::ext_equal]
pub struct Scope {
    pub parent: Option<nat>,
    pub entries: Seq<Binding>,
}

/// The scopes of a function body and the scope marked for each boundary node.
#[verifier::ext_equal]
pub struct ScopeMap {
    pub scopes: Seq<Scope>,
    pub scope_for: Map<usize, nat>,
}

impl ScopeMap {
    pub open spec fn empty() -> ScopeMap {
        ScopeMap { scopes: Seq::empty(), scope_for: Map::empty() }
    }

    /// Appends a scope without entries.
    pub open spec fn push_scope(self, parent: Option<nat>) -> ScopeMap {
        ScopeMap {
            scopes: self.scopes.push(Scope { parent, entries: Seq::empty() }),
            scope_for: self.scope_for,
        }
    }

    /// Appends `entries` to those of `scope`.
    pub open spec fn add_entries(self, scope: int, entries: Seq<Binding>) -> ScopeMap {
        if 0 <= scope < self.scopes.len() {
            ScopeMap {
                scopes: self.scopes.update(
                    scope,
                    Scope {
                        parent: self.scopes[scope].parent,
                        entries: self.scopes[scope].entries + entries,
                    },
                ),
                scope_for: self.scope_for,
            }
        } else {
            self
        }
    }

    /// Marks `scope` as the scope active for `node`.
    pub open spec fn mark(self, node: usize, scope: nat) -> ScopeMap {
        ScopeMap { scopes: self.scopes, scope_for: self.scope_for.insert(node, scope) }
    }

    /// `later` comes from `self` by adding: the scopes of `self` are there
    /// unchanged, with more scopes behind them that each have a parent, and
    /// every node that `self` marks is marked.
    pub open spec fn grows_to(self, later: ScopeMap) -> bool {
        &&& self.scopes.len() <= later.scopes.len()
        &&& forall|i: int| 0 <= i < self.scopes.len() ==> #[trigger] later.scopes[i] == self.scopes[i]
        &&& forall|i: int|
            self.scopes.len() <= i < later.scopes.len() ==> (#[trigger] later.scopes[i]).parent
                is Some
        &&& forall|n: usize| #[trigger]
            self.scope_for.contains_key(n) ==> later.scope_for.contains_key(n)
    }

    /// Parents come before their children, and marks name scopes that exist.
    pub open spec fn wf(self) -> bool {
        &&& forall|i: int|
            0 <= i < self.scopes.len() ==> ((#[trigger] self.scopes[i]).parent matches Some(p)
                ==> p < i)
        &&& forall|n: usize| #[trigger]
            self.scope_for.contains_key(n) ==> self.scope_for[n] < self.scopes.len()
    }

    /// The scopes from `scope` outwards, following parent links.
    pub open spec fn chain_from(self, scope: nat) -> Seq<nat>
        decreases scope,
    {
        if scope >= self.scopes.len() {
            Seq::empty()
        } else {
            match self.scopes[scope as int].parent {
                Some(p) if p < scope => seq![scope] + self.chain_from(p),
                _ => seq![scope],
            }
        }
    }

    /// The names visible from `scope`: its own, then those of each enclosing
    /// scope in turn. A name that is shadowed occurs once for each scope that
    /// introduces it.
    pub open spec fn visible_from(self, scope: nat) -> Seq<Binding>
        decreases scope,
    {
        if scope >= self.scopes.len() {
            Seq::empty()
        } else {
            match self.scopes[scope as int].parent {
                Some(p) if p < scope => self.scopes[scope as int].entries + self.visible_from(p),
                _ => self.scopes[scope as int].entries,
            }
        }
    }
}

/// The scope marked for the nearest marked node among `node` and its
/// ancestors.
pub open spec fn scope_of(s: Seq<SyntaxNode>, marks: Map<usize, nat>, node: usize) -> Option<
    nat,
>
    decreases node,
{
    if marks.contains_key(node) {
        Some(marks[node])
    } else if node < s.len() {
        match s[node as int].parent {
            Some(p) if p < node => scope_of(s, marks, p),
            _ => None,
        }
    } else {
        None
    }
}

/// The scope of a node is the mark of `node` or of one of its ancestors.
pub proof fn lemma_scope_of_is_a_mark(s: Seq<SyntaxNode>, marks: Map<usize, nat>, node: usize)
    requires
        scope_of(s, marks, node) is Some,
    ensures
        exists|n: usize| #[trigger]
            marks.contains_key(n) && n <= node && marks[n] == scope_of(s, marks, node)->0,
    decreases node,
{
    if marks.contains_key(node) {
    } else {
        let p = s[node as int].parent->0;
        lemma_scope_of_is_a_mark(s, marks, p);
    }
}

/// Adding entries twice is adding them all at once.
pub proof fn lemma_add_entries_twice(m: ScopeMap, scope: int, a: Seq<Binding>, b: Seq<Binding>)
    ensures
        m.add_entries(scope, a).add_entries(scope, b) == m.add_entries(scope, a + b),
        m.add_entries(scope, Seq::empty()) == m,
{
    assert(m.add_entries(scope, a).add_entries(scope, b) =~~= m.add_entries(scope, a + b));
    assert(m.add_entries(scope, Seq::empty()) =~~= m);
}

/// A chain holds scopes that exist, each before the one that it follows.
pub proof fn lemma_chain_in_range(m: ScopeMap, scope: nat)
    ensures
        forall|i: int|
            0 <= i < m.chain_from(scope).len() ==> #[trigger] m.chain_from(scope)[i]
                < m.scopes.len() && m.chain_from(scope)[i] <= scope,
    decreases scope,
{
    if scope < m.scopes.len() {
        let chain = m.chain_from(scope);
        match m.scopes[scope as int].parent {
            Some(p) => {
                if p < scope {
                    lemma_chain_in_range(m, p);
                    assert forall|i: int| 0 <= i < chain.len() implies #[trigger] chain[i]
                        < m.scopes.len() && chain[i] <= scope by {
                        if i > 0 {
                            assert(chain[i] == m.chain_from(p)[i - 1]);
                        }
                    }
                }
            },
            None => {},
        }
    }
}

/// The scope chain of `node`, innermost scope first; empty where no ancestor
/// of `node` is marked.
pub open spec fn scope_chain(s: Seq<SyntaxNode>, m: ScopeMap, node: usize) -> Seq<nat> {
    match scope_of(s, m.scope_for, node) {
        Some(scope) => m.chain_from(scope),
        None => Seq::empty(),
    }
}

/// The names visible at `node`, innermost scope first.
pub open spec fn visible_at(s: Seq<SyntaxNode>, m: ScopeMap, node: usize) -> Seq<Binding> {
    match scope_of(s, m.scope_for, node) {
        Some(scope) => m.visible_from(scope),
        None => Seq::empty(),
    }
}

/// A binding declaration: a new scope inside `scope` takes the bindings of
/// the pattern, and the initializer is marked with `scope` itself, so that it
/// does not see them. Returns the scopes and the new scope, which is the one
/// active for the statements that follow.
pub open spec fn let_scopes(s: Seq<SyntaxNode>, stmt: usize, m: ScopeMap, scope: nat) -> (
    ScopeMap,
    nat,
) {
    let new = m.scopes.len();
    let m1 = m.push_scope(Some(scope));
    let m2 = match first_child(s, stmt, KindClass::Pat) {
        Some(p) => m1.add_entries(m.scopes.len() as int, pat_bindings(s, p)),
        None => m1,
    };
    let m3 = match first_child(s, stmt, KindClass::Expr) {
        Some(e) => m2.mark(e, scope),
        None => m2,
    };
    (m3, new)
}

/// The statements that start at index `c` and lie before `end`, in order,
/// with `scope` active for the first of them. Returns the scopes and the
/// scope active after the last statement.
pub open spec fn stmts_scopes(
    s: Seq<SyntaxNode>,
    c: usize,
    end: usize,
    m: ScopeMap,
    scope: nat,
) -> (ScopeMap, nat)
    decreases s.len() - c, 2nat,
{
    if c >= end || end > s.len() || s[c as int].end <= c || s[c as int].end > end {
        (m, scope)
    } else {
        let next = s[c as int].end;
        match s[c as int].kind {
            SyntaxKind::LetStmt => {
                let (m1, scope1) = let_scopes(s, c, m, scope);
                stmts_scopes(s, next, end, m1, scope1)
            },
            SyntaxKind::ExprStmt => match first_child(s, c, KindClass::Expr) {
                Some(e) => {
                    if c < e < s.len() {
                        stmts_scopes(s, next, end, expr_scopes(s, e, m.mark(e, scope), scope), scope)
                    } else {
                        stmts_scopes(s, next, end, m, scope)
                    }
                },
                None => stmts_scopes(s, next, end, m, scope),
            },
            _ => stmts_scopes(s, next, end, m, scope),
        }
    }
}

/// A block: its statements in order, then its trailing expression, which is
/// marked with the scope active after the last statement.
pub open spec fn block_scopes(s: Seq<SyntaxNode>, block: usize, m: ScopeMap, scope: nat) -> ScopeMap
    decreases s.len() - block, 1nat,
{
    if block < s.len() && block < usize::MAX {
        let (m1, scope1) = stmts_scopes(s, (block + 1) as usize, s[block as int].end, m, scope);
        match first_child(s, block, KindClass::Expr) {
            Some(e) => {
                if block < e < s.len() {
                    expr_scopes(s, e, m1.mark(e, scope1), scope1)
                } else {
                    m1
                }
            },
            None => m1,
        }
    } else {
        m
    }
}

/// A condition. Its expression is walked in `scope`. Where the condition has
/// a pattern, a new scope inside `scope` takes the pattern's bindings, and is
/// returned with the scopes: it is the scope of the body that the condition
/// guards.
pub open spec fn cond_scopes(s: Seq<SyntaxNode>, cond: usize, m: ScopeMap, scope: nat) -> (
    ScopeMap,
    Option<nat>,
)
    decreases s.len() - cond, 0nat,
{
    let m1 = match first_child(s, cond, KindClass::Expr) {
        Some(x) => {
            if cond < x < s.len() {
                expr_scopes(s, x, m, scope)
            } else {
                m
            }
        },
        None => m,
    };
    match first_child(s, cond, KindClass::Pat) {
        Some(p) => {
            let new = m1.scopes.len();
            (
                m1.push_scope(Some(scope)).add_entries(m1.scopes.len() as int, pat_bindings(s, p)),
                Some(new),
            )
        },
        None => (m1, None),
    }
}

/// The condition of the conditional or loop `e`, if it has one: the scopes,
/// and the scope of the body that the condition guards, which is `scope`
/// itself unless the condition has a pattern.
pub open spec fn guard_scopes(s: Seq<SyntaxNode>, e: usize, m: ScopeMap, scope: nat) -> (
    ScopeMap,
    nat,
)
    decreases s.len() - e, 0nat,
{
    match first_child(s, e, KindClass::Kind(SyntaxKind::Condition)) {
        Some(c) => {
            if e < c < s.len() {
                let (m1, cond_scope) = cond_scopes(s, c, m, scope);
                match cond_scope {
                    Some(new) => (m1, new),
                    None => (m1, scope),
                }
            } else {
                (m, scope)
            }
        },
        None => (m, scope),
    }
}

/// An expression whose own scope is `scope`.
///
/// A conditional walks its first block in the scope of its condition and its
/// second block in `scope`; a loop with a condition walks its body in the
/// scope of the condition; a block expression walks its block in `scope`.
/// Every other expression walks the expressions among its children in
/// `scope`. A loop over an iterator is such an expression: the variable it
/// binds gets no scope.
pub open spec fn expr_scopes(s: Seq<SyntaxNode>, e: usize, m: ScopeMap, scope: nat) -> ScopeMap
    decreases s.len() - e, 1nat,
{
    if e < s.len() && e < usize::MAX {
        match s[e as int].kind {
            SyntaxKind::IfExpr => {
                let (m1, body_scope) = guard_scopes(s, e, m, scope);
                let m2 = match nth_child(s, e, KindClass::Kind(SyntaxKind::Block), 0) {
                    Some(b) => {
                        if e < b < s.len() {
                            block_scopes(s, b, m1, body_scope)
                        } else {
                            m1
                        }
                    },
                    None => m1,
                };
                match nth_child(s, e, KindClass::Kind(SyntaxKind::Block), 1) {
                    Some(b) => {
                        if e < b < s.len() {
                            block_scopes(s, b, m2, scope)
                        } else {
                            m2
                        }
                    },
                    None => m2,
                }
            },
            SyntaxKind::WhileExpr => {
                let (m1, body_scope) = guard_scopes(s, e, m, scope);
                match first_child(s, e, KindClass::Kind(SyntaxKind::Block)) {
                    Some(b) => {
                        if e < b < s.len() {
                            block_scopes(s, b, m1, body_scope)
                        } else {
                            m1
                        }
                    },
                    None => m1,
                }
            },
            SyntaxKind::BlockExpr => match first_child(s, e, KindClass::Kind(SyntaxKind::Block)) {
                Some(b) => {
                    if e < b < s.len() {
                        block_scopes(s, b, m, scope)
                    } else {
                        m
                    }
                },
                None => m,
            },
            _ => children_scopes(s, (e + 1) as usize, s[e as int].end, m, scope),
        }
    } else {
        m
    }
}

/// The expressions among the siblings that start at index `c` and lie before
/// `end`, each walked in `scope`.
pub open spec fn children_scopes(
    s: Seq<SyntaxNode>,
    c: usize,
    end: usize,
    m: ScopeMap,
    scope: nat,
) -> ScopeMap
    decreases s.len() - c, 2nat,
{
    if c >= end || end > s.len() || s[c as int].end <= c || s[c as int].end > end {
        m
    } else if s[c as int].kind.spec_is_expr() {
        children_scopes(s, s[c as int].end, end, expr_scopes(s, c, m, scope), scope)
    } else {
        children_scopes(s, s[c as int].end, end, m, scope)
    }
}

/// The scopes of a function: a root scope with the bindings of the
/// parameters, then the scopes of the body, walked in the root scope.
pub open spec fn fn_scopes(s: Seq<SyntaxNode>, fn_def: usize) -> ScopeMap {
    let m = ScopeMap::empty().push_scope(None).add_entries(0, fn_params(s, fn_def));
    match first_child(s, fn_def, KindClass::Kind(SyntaxKind::Block)) {
        Some(b) => block_scopes(s, b, m, 0),
        None => m,
    }
}

/// A name in a scope, with the pattern node that introduces it.
#[derive(Debug)]
pub struct ScopeEntry {
    node: usize,
    name: String,
}

impl View for ScopeEntry {
    type V = Binding;

    closed spec fn view(&self) -> Binding {
        Binding { node: self.node, name: self.name@ }
    }
}

impl ScopeEntry {
    /// The entry for a binding pattern; `None` where the pattern has no name.
    pub fn new(tree: &SyntaxTree, pat: usize) -> (r: Option<ScopeEntry>)
        requires
            pat < tree@.len(),
        ensures
            match r {
                Some(e) => binding_of(tree@, pat) == Some(e@),
                None => binding_of(tree@, pat) is None,
            },
    {
        if tree.kind(pat) == SyntaxKind::BindPat {
            match tree.first_child(pat, KindClass::Kind(SyntaxKind::Name)) {
                Some(n) => Some(ScopeEntry { node: pat, name: tree.text(n).clone() }),
                None => None,
            }
        } else {
            None
        }
    }

    /// The name that the entry introduces.
    pub fn name(&self) -> (r: &String)
        ensures
            r@ == self@.name,
    {
        &self.name
    }

    /// The pattern node that introduces the name.
    pub fn node(&self) -> (r: usize)
        ensures
            r == self@.node,
    {
        self.node
    }
}

/// The bindings that a list of entries stands for.
pub open spec fn entries_view(entries: Seq<ScopeEntry>) -> Seq<Binding> {
    entries.map_values(|e: ScopeEntry| e@)
}

#[derive(Debug)]
struct ScopeData {
    parent: Option<ScopeId>,
    entries: Vec<ScopeEntry>,
}

impl View for ScopeData {
    type V = Scope;

    closed spec fn view(&self) -> Scope {
        Scope { parent: id_view(self.parent), entries: entries_view(self.entries@) }
    }
}

/// The scopes of one function body, as [`compute_scopes`] builds them.
#[derive(Debug)]
pub struct FnScopes {
    scopes: Vec<ScopeData>,
    scope_for: HashMap<usize, ScopeId>,
}

impl View for FnScopes {
    type V = ScopeMap;

    closed spec fn view(&self) -> ScopeMap {
        ScopeMap {
            scopes: self.scopes@.map_values(|d: ScopeData| d@),
            scope_for: Map::new(
                |n: usize| self.scope_for@.contains_key(n),
                |n: usize| self.scope_for@[n] as nat,
            ),
        }
    }
}

impl FnScopes {
    pub fn new() -> (r: FnScopes)
        ensures
            r@ == ScopeMap::empty(),
    {
        let r = FnScopes { scopes: Vec::new(), scope_for: HashMap::new() };
        assert(r@ =~= ScopeMap::empty());
        r
    }

    /// The number of scopes.
    pub fn len(&self) -> (n: usize)
        ensures
            n == self@.scopes.len(),
    {
        self.scopes.len()
    }

    /// Adds a scope without a parent.
    pub(crate) fn root_scope(&mut self) -> (r: ScopeId)
        ensures
            final(self)@ == old(self)@.push_scope(None),
            r == old(self)@.scopes.len(),
    {
        let res = self.scopes.len();
        self.scopes.push(ScopeData { parent: None, entries: Vec::new() });
        assert(self@ =~~= old(self)@.push_scope(None));
        res
    }

    /// Adds a scope inside `parent`.
    pub(crate) fn new_scope(&mut self, parent: ScopeId) -> (r: ScopeId)
        ensures
            final(self)@ == old(self)@.push_scope(Some(parent as nat)),
            r == old(self)@.scopes.len(),
    {
        let res = self.scopes.len();
        self.scopes.push(ScopeData { parent: Some(parent), entries: Vec::new() });
        assert(self@ =~~= old(self)@.push_scope(Some(parent as nat)));
        res
    }

    /// Marks `scope` as the scope active for `node`.
    pub(crate) fn set_scope(&mut self, node: usize, scope: ScopeId)
        ensures
            final(self)@ == old(self)@.mark(node, scope as nat),
    {
        self.scope_for.insert(node, scope);
        assert(self@ =~~= old(self)@.mark(node, scope as nat));
    }

    /// Adds the bindings of the pattern `pat` to `scope`, in source order.
    pub(crate) fn add_bindings(&mut self, tree: &SyntaxTree, scope: ScopeId, pat: usize)
        requires
            scope < old(self)@.scopes.len(),
            pat < tree@.len(),
        ensures
            final(self)@ == old(self)@.add_entries(scope as int, pat_bindings(tree@, pat)),
    {
        let end = tree.end(pat);
        let mut i: usize = pat;
        assert(self@ =~~= old(self)@.add_entries(scope as int, bindings_in(tree@, pat, i)));
        while i < end
            invariant
                pat <= i <= end <= tree@.len(),
                end == tree@[pat as int].end,
                scope < self@.scopes.len(),
                self@ == old(self)@.add_entries(scope as int, bindings_in(tree@, pat, i)),
            decreases end - i,
        {
            let ghost before = self@;
            if let Some(e) = ScopeEntry::new(tree, i) {
                self.scopes[scope].entries.push(e);
                assert(self@ =~~= before.add_entries(scope as int, seq![e@]));
            }
            i += 1;
            assert(self@ =~~= old(self)@.add_entries(scope as int, bindings_in(tree@, pat, i)));
        }
    }

    /// The entries that `scope` introduces, in order.
    pub fn entries(&self, scope: ScopeId) -> (r: &Vec<ScopeEntry>)
        requires
            scope < self@.scopes.len(),
        ensures
            entries_view(r@) == self@.scopes[scope as int].entries,
    {
        &self.scopes[scope].entries
    }

    /// The parent of `scope`.
    pub fn parent(&self, scope: ScopeId) -> (r: Option<ScopeId>)
        requires
            scope < self@.scopes.len(),
        ensures
            id_view(r) == self@.scopes[scope as int].parent,
    {
        self.scopes[scope].parent
    }

    /// The scope active for `node`: that of the nearest marked node among
    /// `node` and its ancestors.
    pub fn scope_for(&self, tree: &SyntaxTree, node: usize) -> (r: Option<ScopeId>)
        ensures
            id_view(r) == scope_of(tree@, self@.scope_for, node),
    {
        let mut n: usize = node;
        loop
            invariant
                scope_of(tree@, self@.scope_for, n) == scope_of(tree@, self@.scope_for, node),
            decreases n,
        {
            if let Some(scope) = self.scope_for.get(&n) {
                return Some(*scope);
            }
            if n >= tree.len() {
                return None;
            }
            match tree.parent(n) {
                Some(p) => {
                    n = p;
                },
                None => {
                    return None;
                },
            }
        }
    }

    /// The scope chain of `node`, innermost scope first, up to and including
    /// the root scope. Empty where no ancestor of `node` is marked.
    pub fn scope_chain(&self, tree: &SyntaxTree, node: usize) -> (r: Vec<ScopeId>)
        requires
            self@.wf(),
        ensures
            ids_view(r@) == scope_chain(tree@, self@, node),
    {
        let mut res: Vec<ScopeId> = Vec::new();
        match self.scope_for(tree, node) {
            None => res,
            Some(start) => {
                proof {
                    lemma_scope_of_is_a_mark(tree@, self@.scope_for, node);
                }
                let mut scope: ScopeId = start;
                loop
                    invariant
                        self@.wf(),
                        scope < self@.scopes.len(),
                        scope_of(tree@, self@.scope_for, node) == Some(start as nat),
                        ids_view(res@) + self@.chain_from(scope as nat) == self@.chain_from(
                            start as nat,
                        ),
                    decreases scope,
                {
                    res.push(scope);
                    match self.parent(scope) {
                        Some(p) => {
                            assert(ids_view(res@) + self@.chain_from(p as nat) =~= self@.chain_from(
                                start as nat,
                            ));
                            scope = p;
                        },
                        None => {
                            assert(ids_view(res@) =~= self@.chain_from(start as nat));
                            return res;
                        },
                    }
                }
            },
        }
    }
}

/// Walks a condition; see [`cond_scopes`]. The walk only adds.
pub(crate) fn compute_cond_scopes(
    tree: &SyntaxTree,
    cond: usize,
    scopes: &mut FnScopes,
    scope: ScopeId,
) -> (r: Option<ScopeId>)
    requires
        cond < tree@.len(),
    ensures
        (final(scopes)@, id_view(r)) == cond_scopes(tree@, cond, old(scopes)@, scope as nat),
        old(scopes)@.grows_to(final(scopes)@),
        old(scopes)@.wf() && scope < old(scopes)@.scopes.len() ==> final(scopes)@.wf(),
    decreases tree@.len() - cond, 0nat,
{
    proof {
        lemma_cond_grows(tree@, cond, scopes@, scope as nat);
    }
    if let Some(expr) = tree.first_child(cond, KindClass::Expr) {
        compute_expr_scopes(tree, expr, scopes, scope);
    }
    if let Some(pat) = tree.first_child(cond, KindClass::Pat) {
        let s = scopes.new_scope(scope);
        scopes.add_bindings(tree, s, pat);
        Some(s)
    } else {
        None
    }
}

/// Walks an expression whose own scope is `scope`; see [`expr_scopes`]. The
/// walk only adds: the scopes that exist stay as they are, and the nodes
/// that are marked stay marked.
pub(crate) fn compute_expr_scopes(tree: &SyntaxTree, expr: usize, scopes: &mut FnScopes, scope: ScopeId)
    requires
        expr < tree@.len(),
    ensures
        final(scopes)@ == expr_scopes(tree@, expr, old(scopes)@, scope as nat),
        old(scopes)@.grows_to(final(scopes)@),
        old(scopes)@.wf() && scope < old(scopes)@.scopes.len() ==> final(scopes)@.wf(),
    decreases tree@.len() - expr, 1nat,
{
    proof {
        lemma_expr_grows(tree@, expr, scopes@, scope as nat);
    }
    let condition = KindClass::Kind(SyntaxKind::Condition);
    let block = KindClass::Kind(SyntaxKind::Block);
    match tree.kind(expr) {
        SyntaxKind::IfExpr => {
            let cond_scope = match tree.first_child(expr, condition) {
                Some(cond) => compute_cond_scopes(tree, cond, scopes, scope),
                None => None,
            };
            let then_scope = match cond_scope {
                Some(s) => s,
                None => scope,
            };
            if let Some(b) = tree.nth_child(expr, block, 0) {
                compute_block_scopes(tree, b, scopes, then_scope);
            }
            if let Some(b) = tree.nth_child(expr, block, 1) {
                compute_block_scopes(tree, b, scopes, scope);
            }
        },
        SyntaxKind::WhileExpr => {
            let cond_scope = match tree.first_child(expr, condition) {
                Some(cond) => compute_cond_scopes(tree, cond, scopes, scope),
                None => None,
            };
            let body_scope = match cond_scope {
                Some(s) => s,
                None => scope,
            };
            if let Some(b) = tree.first_child(expr, block) {
                compute_block_scopes(tree, b, scopes, body_scope);
            }
        },
        SyntaxKind::BlockExpr => {
            if let Some(b) = tree.first_child(expr, block) {
                compute_block_scopes(tree, b, scopes, scope);
            }
        },
        _ => {
            let end = tree.end(expr);
            let mut c: usize = expr + 1;
            while c < end
                invariant
                    expr < c <= end,
                    end == tree@[expr as int].end,
                    end <= tree@.len(),
                    children_scopes(tree@, c, end, scopes@, scope as nat) == children_scopes(
                        tree@,
                        (expr + 1) as usize,
                        end,
                        old(scopes)@,
                        scope as nat,
                    ),
                decreases end - c,
            {
                proof {
                    use_type_invariant(tree);
                    lemma_nested(tree@, expr as int, c as int);
                }
                let next = tree.end(c);
                if tree.kind(c).is_expr() {
                    compute_expr_scopes(tree, c, scopes, scope);
                }
                c = next;
            }
        },
    }
}

/// Walks a block with `scope` active for its first statement; see
/// [`block_scopes`]. The walk only adds.
pub(crate) fn compute_block_scopes(tree: &SyntaxTree, block: usize, scopes: &mut FnScopes, scope: ScopeId)
    requires
        block < tree@.len(),
    ensures
        final(scopes)@ == block_scopes(tree@, block, old(scopes)@, scope as nat),
        old(scopes)@.grows_to(final(scopes)@),
        old(scopes)@.wf() && scope < old(scopes)@.scopes.len() ==> final(scopes)@.wf(),
    decreases tree@.len() - block, 1nat,
{
    proof {
        lemma_block_grows(tree@, block, scopes@, scope as nat);
    }
    let end = tree.end(block);
    let mut scope: ScopeId = scope;
    let ghost scope0 = scope;
    let mut c: usize = block + 1;
    while c < end
        invariant
            block < c <= end,
            end == tree@[block as int].end,
            end <= tree@.len(),
            stmts_scopes(tree@, c, end, scopes@, scope as nat) == stmts_scopes(
                tree@,
                (block + 1) as usize,
                end,
                old(scopes)@,
                scope0 as nat,
            ),
        decreases end - c,
    {
        proof {
            use_type_invariant(tree);
            lemma_nested(tree@, block as int, c as int);
        }
        let next = tree.end(c);
        match tree.kind(c) {
            SyntaxKind::LetStmt => {
                let new = scopes.new_scope(scope);
                if let Some(pat) = tree.first_child(c, KindClass::Pat) {
                    scopes.add_bindings(tree, new, pat);
                }
                if let Some(init) = tree.first_child(c, KindClass::Expr) {
                    scopes.set_scope(init, scope);
                }
                scope = new;
            },
            SyntaxKind::ExprStmt => {
                if let Some(expr) = tree.first_child(c, KindClass::Expr) {
                    scopes.set_scope(expr, scope);
                    compute_expr_scopes(tree, expr, scopes, scope);
                }
            },
            _ => {},
        }
        c = next;
    }
    if let Some(expr) = tree.first_child(block, KindClass::Expr) {
        scopes.set_scope(expr, scope);
        compute_expr_scopes(tree, expr, scopes, scope);
    }
}

/// The scopes of the function `fn_def`; see [`fn_scopes`]. What they make
/// visible at a node is what the tree says: see [`visible_in`].
pub fn compute_scopes(tree: &SyntaxTree, fn_def: usize) -> (scopes: FnScopes)
    requires
        fn_def < tree@.len(),
    ensures
        scopes@ == fn_scopes(tree@, fn_def),
        scopes@.wf(),
        forall|node: usize| #[trigger]
            visible_at(tree@, scopes@, node) == visible_in(tree@, fn_def, node),
{
    proof {
        use_type_invariant(tree);
        lemma_fn_scopes(tree@, fn_def);
        assert forall|node: usize| #[trigger]
            visible_at(tree@, fn_scopes(tree@, fn_def), node) == visible_in(
                tree@,
                fn_def,
                node,
            ) by {
            lemma_visible_in(tree@, fn_def, node);
        }
    }
    let mut scopes = FnScopes::new();
    let root = scopes.root_scope();
    let ghost m0 = scopes@;
    proof {
        lemma_add_entries_twice(m0, 0, Seq::empty(), Seq::empty());
    }
    if let Some(list) = tree.first_child(fn_def, KindClass::Kind(SyntaxKind::ParamList)) {
        let end = tree.end(list);
        let mut c: usize = list + 1;
        while c < end
            invariant
                list < c <= end,
                end == tree@[list as int].end,
                end <= tree@.len(),
                root == 0,
                0 < scopes@.scopes.len(),
                scopes@.add_entries(0, params_bindings(tree@, c, end)) == m0.add_entries(
                    0,
                    params_bindings(tree@, (list + 1) as usize, end),
                ),
            decreases end - c,
        {
            proof {
                use_type_invariant(tree);
                lemma_nested(tree@, list as int, c as int);
            }
            let next = tree.end(c);
            let ghost before = scopes@;
            if tree.kind(c) == SyntaxKind::Param {
                if let Some(pat) = tree.first_child(c, KindClass::Pat) {
                    scopes.add_bindings(tree, root, pat);
                    proof {
                        lemma_add_entries_twice(
                            before,
                            0,
                            pat_bindings(tree@, pat),
                            params_bindings(tree@, next, end),
                        );
                    }
                }
            }
            c = next;
        }
        proof {
            lemma_add_entries_twice(scopes@, 0, Seq::empty(), Seq::empty());
        }
    }
    if let Some(body) = tree.first_child(fn_def, KindClass::Kind(SyntaxKind::Block)) {
        compute_block_scopes(tree, body, &mut scopes, root);
    }
    scopes
}

} // verus!
