//! An indexed syntax tree.
//!
//! A tree is stored as the list of its nodes in depth-first order. Every node
//! records the index one past its last descendant, so the subtree of node `i`
//! is the index range `i .. end(i)`, and a link to its parent.

use vstd::prelude::*;

verus! {

/// The kinds of syntax nodes that the analysis tells apart.
#[derive(Clone, Copy, Debug, PartialEq, Eq, Structural, Hash)]
pub enum SyntaxKind {
    // Tokens.
    Ident,
    StructKw,
    FnKw,
    LParen,
    RParen,
    LCurly,
    RCurly,
    Colon,
    Comma,
    /// The end of the tokens, or of the block that is being parsed.
    Eof,
    // Nodes.
    /// Tokens that fit nowhere.
    Error,
    SourceFile,
    StructDef,
    NamedFieldDef,
    FnDef,
    ParamList,
    Param,
    SelfParam,
    Block,
    LetStmt,
    ExprStmt,
    Condition,
    Name,
    NameRef,
    Path,
    PathSegment,
    // Expressions.
    IfExpr,
    WhileExpr,
    LoopExpr,
    ForExpr,
    BlockExpr,
    PathExpr,
    BinExpr,
    PrefixExpr,
    CallExpr,
    MethodCallExpr,
    FieldExpr,
    IndexExpr,
    RefExpr,
    ParenExpr,
    TupleExpr,
    ArrayExpr,
    LambdaExpr,
    MatchExpr,
    ReturnExpr,
    Literal,
    // Patterns.
    BindPat,
    RefPat,
    TuplePat,
    TupleStructPat,
    StructPat,
    PathPat,
    PlaceholderPat,
    // Anything else: types, item lists, argument lists, match arms, ...
    Other,
}

impl SyntaxKind {
    /// Whether a node of this kind is an expression.
    pub open spec fn spec_is_expr(self) -> bool {
        match self {
            SyntaxKind::IfExpr
            | SyntaxKind::WhileExpr
            | SyntaxKind::LoopExpr
            | SyntaxKind::ForExpr
            | SyntaxKind::BlockExpr
            | SyntaxKind::PathExpr
            | SyntaxKind::BinExpr
            | SyntaxKind::PrefixExpr
            | SyntaxKind::CallExpr
            | SyntaxKind::MethodCallExpr
            | SyntaxKind::FieldExpr
            | SyntaxKind::IndexExpr
            | SyntaxKind::RefExpr
            | SyntaxKind::ParenExpr
            | SyntaxKind::TupleExpr
            | SyntaxKind::ArrayExpr
            | SyntaxKind::LambdaExpr
            | SyntaxKind::MatchExpr
            | SyntaxKind::ReturnExpr
            | SyntaxKind::Literal => true,
            _ => false,
        }
    }

    /// Whether a node of this kind is a pattern.
    pub open spec fn spec_is_pat(self) -> bool {
        match self {
            SyntaxKind::BindPat
            | SyntaxKind::RefPat
            | SyntaxKind::TuplePat
            | SyntaxKind::TupleStructPat
            | SyntaxKind::StructPat
            | SyntaxKind::PathPat
            | SyntaxKind::PlaceholderPat => true,
            _ => false,
        }
    }

    /// Whether a node of this kind is a statement.
    pub open spec fn spec_is_stmt(self) -> bool {
        self == SyntaxKind::LetStmt || self == SyntaxKind::ExprStmt
    }

    #[verifier::when_used_as_spec(spec_is_expr)]
    pub fn is_expr(self) -> (r: bool)
        ensures
            r == self.spec_is_expr(),
    {
        match self {
            SyntaxKind::IfExpr
            | SyntaxKind::WhileExpr
            | SyntaxKind::LoopExpr
            | SyntaxKind::ForExpr
            | SyntaxKind::BlockExpr
            | SyntaxKind::PathExpr
            | SyntaxKind::BinExpr
            | SyntaxKind::PrefixExpr
            | SyntaxKind::CallExpr
            | SyntaxKind::MethodCallExpr
            | SyntaxKind::FieldExpr
            | SyntaxKind::IndexExpr
            | SyntaxKind::RefExpr
            | SyntaxKind::ParenExpr
            | SyntaxKind::TupleExpr
            | SyntaxKind::ArrayExpr
            | SyntaxKind::LambdaExpr
            | SyntaxKind::MatchExpr
            | SyntaxKind::ReturnExpr
            | SyntaxKind::Literal => true,
            _ => false,
        }
    }

    #[verifier::when_used_as_spec(spec_is_pat)]
    pub fn is_pat(self) -> (r: bool)
        ensures
            r == self.spec_is_pat(),
    {
        match self {
            SyntaxKind::BindPat
            | SyntaxKind::RefPat
            | SyntaxKind::TuplePat
            | SyntaxKind::TupleStructPat
            | SyntaxKind::StructPat
            | SyntaxKind::PathPat
            | SyntaxKind::PlaceholderPat => true,
            _ => false,
        }
    }

    #[verifier::when_used_as_spec(spec_is_stmt)]
    pub fn is_stmt(self) -> (r: bool)
        ensures
            r == self.spec_is_stmt(),
    {
        self == SyntaxKind::LetStmt || self == SyntaxKind::ExprStmt
    }
}

/// A class of node kinds, used to pick children of a node.
#[derive(Clone, Copy, Debug, PartialEq, Eq, Structural, Hash)]
pub enum KindClass {
    /// Nodes of exactly this kind.
    Kind(SyntaxKind),
    /// Any expression.
    Expr,
    /// Any pattern.
    Pat,
    /// Any statement.
    Stmt,
}

impl KindClass {
    pub open spec fn spec_matches(self, kind: SyntaxKind) -> bool {
        match self {
            KindClass::Kind(k) => k == kind,
            KindClass::Expr => kind.spec_is_expr(),
            KindClass::Pat => kind.spec_is_pat(),
            KindClass::Stmt => kind.spec_is_stmt(),
        }
    }

    /// Whether a node of kind `kind` belongs to this class.
    #[verifier::when_used_as_spec(spec_matches)]
    pub fn matches(self, kind: SyntaxKind) -> (r: bool)
        ensures
            r == self.spec_matches(kind),
    {
        match self {
            KindClass::Kind(k) => k == kind,
            KindClass::Expr => kind.is_expr(),
            KindClass::Pat => kind.is_pat(),
            KindClass::Stmt => kind.is_stmt(),
        }
    }
}

/// A range of text offsets, `start ..= end` for the purpose of locating a
/// cursor: an offset at either end touches the range.
#[derive(Clone, Copy, Debug, PartialEq, Eq, Structural, Hash)]
pub struct TextRange {
    pub start: u32,
    pub end: u32,
}

impl TextRange {
    pub open spec fn spec_touches(self, offset: u32) -> bool {
        self.start <= offset <= self.end
    }

    pub open spec fn spec_len(self) -> int {
        self.end - self.start
    }

    /// Whether `offset` lies in the range or at one of its ends.
    #[verifier::when_used_as_spec(spec_touches)]
    pub fn touches(self, offset: u32) -> (r: bool)
        ensures
            r == self.spec_touches(offset),
    {
        self.start <= offset && offset <= self.end
    }
}

/// One node of a tree, as stored in the node list.
#[derive(Debug, PartialEq, Eq)]
pub struct SyntaxNode {
    pub kind: SyntaxKind,
    /// The enclosing node; `None` for the root.
    pub parent: Option<usize>,
    /// One past the index of the last descendant.
    pub end: usize,
    /// The text covered by the node.
    pub range: TextRange,
    /// The identifier, for `Name` and `NameRef` nodes; empty otherwise.
    pub text: String,
}

/// Node `j` lies inside its parent, and every node between the parent and
/// `j` is finished before `j` starts: the parent is the innermost node whose
/// subtree holds `j`.
pub open spec fn wf_link(s: Seq<SyntaxNode>, j: int) -> bool {
    &&& s[j].parent is Some
    &&& (s[j].parent->0 as int) < j < s[s[j].parent->0 as int].end
    &&& s[j].end <= s[s[j].parent->0 as int].end
    &&& forall|k: int| (s[j].parent->0 as int) < k < j ==> (#[trigger] s[k]).end <= j
}

/// Node `j` ends behind itself and within the list, its range does not end
/// before it starts, and unless it is the root it is linked to its parent.
pub open spec fn wf_node(s: Seq<SyntaxNode>, j: int) -> bool {
    &&& j < s[j].end <= s.len()
    &&& s[j].range.start <= s[j].range.end
    &&& j > 0 ==> wf_link(s, j)
}

/// A node list is a tree in depth-first order: node 0 is the root and spans
/// the whole list, and every other node is linked to its parent.
pub open spec fn wf_nodes(s: Seq<SyntaxNode>) -> bool {
    &&& s.len() >= 1
    &&& s[0].parent is None
    &&& s[0].end == s.len()
    &&& forall|j: int| 0 <= j < s.len() ==> #[trigger] wf_node(s, j)
}

/// Subtrees nest: a node inside the subtree of `i` ends inside it too.
pub proof fn lemma_nested(s: Seq<SyntaxNode>, i: int, j: int)
    requires
        wf_nodes(s),
        0 <= i < j < s[i].end,
        i < s.len(),
    ensures
        j < s.len(),
        j < s[j].end <= s[i].end,
    decreases j,
{
    assert(wf_node(s, i));
    assert(wf_node(s, j));
    let p = s[j].parent->0 as int;
    if p == i {
    } else if p < i {
        assert(s[i].end <= j);
    } else {
        lemma_nested(s, i, p);
    }
}

/// The `n`-th node of class `class` among the siblings that start at index
/// `c` and lie before `end`.
pub open spec fn find_sibling(
    s: Seq<SyntaxNode>,
    c: usize,
    end: usize,
    class: KindClass,
    n: nat,
) -> Option<usize>
    decreases end - c,
{
    if c >= end || c >= s.len() || s[c as int].end <= c || s[c as int].end > end {
        None
    } else if class.spec_matches(s[c as int].kind) {
        if n == 0 {
            Some(c)
        } else {
            find_sibling(s, s[c as int].end, end, class, (n - 1) as nat)
        }
    } else {
        find_sibling(s, s[c as int].end, end, class, n)
    }
}

/// The `n`-th child of `node` that belongs to `class`.
pub open spec fn nth_child(s: Seq<SyntaxNode>, node: usize, class: KindClass, n: nat) -> Option<
    usize,
> {
    if node < s.len() && node < usize::MAX {
        find_sibling(s, (node + 1) as usize, s[node as int].end, class, n)
    } else {
        None
    }
}

/// The first child of `node` that belongs to `class`.
pub open spec fn first_child(s: Seq<SyntaxNode>, node: usize, class: KindClass) -> Option<usize> {
    nth_child(s, node, class, 0)
}

/// A sibling found from `c` lies in `c .. end` and belongs to the class.
pub proof fn lemma_find_sibling(s: Seq<SyntaxNode>, c: usize, end: usize, class: KindClass, n: nat)
    requires
        find_sibling(s, c, end, class, n) is Some,
    ensures
        c <= find_sibling(s, c, end, class, n)->0 < end,
        find_sibling(s, c, end, class, n)->0 < s.len(),
        class.spec_matches(s[find_sibling(s, c, end, class, n)->0 as int].kind),
    decreases end - c,
{
    if c >= end || c >= s.len() || s[c as int].end <= c || s[c as int].end > end {
    } else if class.spec_matches(s[c as int].kind) {
        if n != 0 {
            lemma_find_sibling(s, s[c as int].end, end, class, (n - 1) as nat);
        }
    } else {
        lemma_find_sibling(s, s[c as int].end, end, class, n);
    }
}

/// A child lies strictly inside its parent's subtree.
pub proof fn lemma_nth_child(s: Seq<SyntaxNode>, node: usize, class: KindClass, n: nat)
    requires
        nth_child(s, node, class, n) is Some,
    ensures
        node < nth_child(s, node, class, n)->0 < s[node as int].end,
        nth_child(s, node, class, n)->0 < s.len(),
        class.spec_matches(s[nth_child(s, node, class, n)->0 as int].kind),
{
    lemma_find_sibling(s, (node + 1) as usize, s[node as int].end, class, n);
}

/// A sibling found in the walk over the children of `node` has `node` as its
/// parent. The walk is at `c`, and every node between `node` and `c` ends
/// before `c`.
pub proof fn lemma_sibling_parent(s: Seq<SyntaxNode>, node: usize, c: usize, class: KindClass, n: nat)
    requires
        wf_nodes(s),
        node < s.len(),
        node < c,
        forall|k: int| node < k < c ==> (#[trigger] s[k]).end <= c,
        find_sibling(s, c, s[node as int].end, class, n) is Some,
    ensures
        s[find_sibling(s, c, s[node as int].end, class, n)->0 as int].parent == Some(node),
    decreases s[node as int].end - c,
{
    let end = s[node as int].end;
    assert(wf_node(s, node as int));
    assert(wf_node(s, c as int));
    let p = s[c as int].parent->0;
    if p < node {
        assert(s[node as int].end <= c);
    } else if p > node {
        assert(s[p as int].end <= c);
    }
    let next = s[c as int].end;
    assert forall|k: int| node < k < next implies (#[trigger] s[k]).end <= next by {
        if k > c {
            lemma_nested(s, c as int, k);
        }
    }
    if class.spec_matches(s[c as int].kind) {
        if n != 0 {
            lemma_sibling_parent(s, node, next, class, (n - 1) as nat);
        }
    } else {
        lemma_sibling_parent(s, node, next, class, n);
    }
}

/// A child found by [`nth_child`] has `node` as its parent.
pub proof fn lemma_child_parent(s: Seq<SyntaxNode>, node: usize, class: KindClass, n: nat)
    requires
        wf_nodes(s),
        nth_child(s, node, class, n) is Some,
    ensures
        s[nth_child(s, node, class, n)->0 as int].parent == Some(node),
{
    lemma_sibling_parent(s, node, (node + 1) as usize, class, n);
}

/// Two children of one node do not overlap.
pub proof fn lemma_children_disjoint(s: Seq<SyntaxNode>, a: usize, b: usize)
    requires
        wf_nodes(s),
        a < b < s.len(),
        s[a as int].parent is Some,
        s[a as int].parent == s[b as int].parent,
    ensures
        s[a as int].end <= b,
{
    assert(wf_node(s, a as int));
    assert(wf_node(s, b as int));
}

/// The second node of a class among some siblings lies after the whole
/// subtree of the first.
pub proof fn lemma_second_sibling(s: Seq<SyntaxNode>, c: usize, end: usize, class: KindClass)
    requires
        find_sibling(s, c, end, class, 1) is Some,
    ensures
        find_sibling(s, c, end, class, 0) is Some,
        s[find_sibling(s, c, end, class, 0)->0 as int].end <= find_sibling(s, c, end, class, 1)->0,
    decreases end - c,
{
    if c >= end || c >= s.len() || s[c as int].end <= c || s[c as int].end > end {
    } else if class.spec_matches(s[c as int].kind) {
        lemma_find_sibling(s, s[c as int].end, end, class, 0);
    } else {
        lemma_second_sibling(s, s[c as int].end, end, class);
    }
}

/// A syntax tree: a node list that satisfies [`wf_nodes`].
#[derive(Debug, PartialEq, Eq)]
pub struct SyntaxTree {
    nodes: Vec<SyntaxNode>,
}

impl View for SyntaxTree {
    type V = Seq<SyntaxNode>;

    closed spec fn view(&self) -> Seq<SyntaxNode> {
        self.nodes@
    }
}

impl SyntaxTree {
    /// Every tree that executable code holds is well formed.
    #[verifier::type_invariant]
    pub open spec fn wf(&self) -> bool {
        wf_nodes(self@)
    }

    fn check_node(nodes: &Vec<SyntaxNode>, j: usize) -> (ok: bool)
        requires
            j < nodes.len(),
        ensures
            ok == wf_node(nodes@, j as int),
    {
        let end = nodes[j].end;
        if !(j < end && end <= nodes.len()) {
            return false;
        }
        if nodes[j].range.start > nodes[j].range.end {
            return false;
        }
        if j == 0 {
            return true;
        }
        match nodes[j].parent {
            None => false,
            Some(p) => {
                if !(p < j && j < nodes[p].end && end <= nodes[p].end) {
                    return false;
                }
                let mut k: usize = p + 1;
                while k < j
                    invariant
                        p < k <= j < nodes.len(),
                        nodes@[j as int].parent == Some(p),
                        forall|i: int| p < i < k ==> (#[trigger] nodes@[i]).end <= j,
                    decreases j - k,
                {
                    if nodes[k].end > j {
                        assert(!wf_link(nodes@, j as int)) by {
                            assert(nodes@[k as int].end > j);
                        }
                        return false;
                    }
                    k += 1;
                }
                true
            },
        }
    }

    /// Makes a tree of a node list, if the list is one.
    pub fn from_nodes(nodes: Vec<SyntaxNode>) -> (r: Option<SyntaxTree>)
        ensures
            r is Some <==> wf_nodes(nodes@),
            r matches Some(t) ==> t@ == nodes@ && t.wf(),
    {
        let n = nodes.len();
        if n == 0 {
            return None;
        }
        if nodes[0].parent.is_some() || nodes[0].end != n {
            return None;
        }
        let mut j: usize = 0;
        while j < n
            invariant
                n == nodes.len(),
                j <= n,
                forall|i: int| 0 <= i < j ==> #[trigger] wf_node(nodes@, i),
            decreases n - j,
        {
            if !Self::check_node(&nodes, j) {
                return None;
            }
            j += 1;
        }
        Some(SyntaxTree { nodes })
    }

    /// The number of nodes; at least one.
    pub fn len(&self) -> (n: usize)
        ensures
            n == self@.len(),
            self.wf(),
    {
        proof {
            use_type_invariant(self);
        }
        self.nodes.len()
    }

    pub fn kind(&self, node: usize) -> (k: SyntaxKind)
        requires
            node < self@.len(),
        ensures
            k == self@[node as int].kind,
    {
        self.nodes[node].kind
    }

    /// The enclosing node, which has a smaller index.
    pub fn parent(&self, node: usize) -> (p: Option<usize>)
        requires
            node < self@.len(),
        ensures
            p == self@[node as int].parent,
            p matches Some(q) ==> q < node,
            p is None <==> node == 0,
    {
        proof {
            use_type_invariant(self);
            assert(wf_node(self@, node as int));
        }
        self.nodes[node].parent
    }

    /// One past the last descendant of `node`.
    pub fn end(&self, node: usize) -> (e: usize)
        requires
            node < self@.len(),
        ensures
            e == self@[node as int].end,
            node < e <= self@.len(),
    {
        proof {
            use_type_invariant(self);
            assert(wf_node(self@, node as int));
        }
        self.nodes[node].end
    }

    pub fn range(&self, node: usize) -> (r: TextRange)
        requires
            node < self@.len(),
        ensures
            r == self@[node as int].range,
            r.start <= r.end,
    {
        proof {
            use_type_invariant(self);
            assert(wf_node(self@, node as int));
        }
        self.nodes[node].range
    }

    pub fn text(&self, node: usize) -> (t: &String)
        requires
            node < self@.len(),
        ensures
            *t == self@[node as int].text,
    {
        &self.nodes[node].text
    }

    /// The `n`-th child of `node` that belongs to `class`, in source order.
    pub fn nth_child(&self, node: usize, class: KindClass, n: usize) -> (r: Option<usize>)
        requires
            node < self@.len(),
        ensures
            r == nth_child(self@, node, class, n as nat),
            r matches Some(c) ==> node < c < self@[node as int].end && c < self@.len(),
    {
        proof {
            use_type_invariant(self);
        }
        let end = self.end(node);
        let mut c: usize = node + 1;
        let mut left: usize = n;
        while c < end
            invariant
                self.wf(),
                node < c <= end,
                end == self@[node as int].end,
                end <= self@.len(),
                left <= n,
                find_sibling(self@, c, end, class, left as nat) == nth_child(
                    self@,
                    node,
                    class,
                    n as nat,
                ),
            decreases end - c,
        {
            proof {
                lemma_nested(self@, node as int, c as int);
            }
            let next = self.end(c);
            if class.matches(self.kind(c)) {
                if left == 0 {
                    return Some(c);
                }
                left -= 1;
            }
            c = next;
        }
        None
    }

    /// The first child of `node` that belongs to `class`.
    pub fn first_child(&self, node: usize, class: KindClass) -> (r: Option<usize>)
        requires
            node < self@.len(),
        ensures
            r == first_child(self@, node, class),
            r matches Some(c) ==> node < c < self@[node as int].end && c < self@.len(),
    {
        self.nth_child(node, class, 0)
    }
}

} // verus!
