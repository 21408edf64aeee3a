//! Candidate identifiers for a cursor position.
//!
//! The local names come from the scopes of the function around the cursor.
//! Where the cursor is on a path of one segment, the names of the module
//! follow them, and then the names that could be imported.

use crate::scopes::{compute_scopes, entries_view, ids_view, visible_at, FnScopes, ScopeMap};
use crate::visibility::{visible_in, Binding};
use crate::import::{import_items, matching_items, ImportResolver};
use crate::path::{fmt_path, path_text, Name, Path, PathView};
use crate::syntax::{SyntaxKind, SyntaxNode, SyntaxTree, TextRange};
use vstd::prelude::*;
use vstd::string::StringExecFns;

verus! {

/// One change to a text: the range to delete and the text to put there.
#[derive(Debug)]
pub struct AtomEdit {
    pub delete: TextRange,
    pub insert: String,
}

/// An [`AtomEdit`] as a value.
pub struct AtomView {
    pub delete: TextRange,
    pub insert: Seq<char>,
}

impl View for AtomEdit {
    type V = AtomView;

    open spec fn view(&self) -> AtomView {
        AtomView { delete: self.delete, insert: self.insert@ }
    }
}

/// The changes that a list of edits stands for.
pub open spec fn atoms_view(atoms: Seq<AtomEdit>) -> Seq<AtomView> {
    atoms.map_values(|a: AtomEdit| a@)
}

impl AtomEdit {
    /// The edit that puts `text` at `offset` and deletes nothing.
    pub fn insert(offset: u32, text: String) -> (r: AtomEdit)
        ensures
            r@ == (AtomView { delete: TextRange { start: offset, end: offset }, insert: text@ }),
    {
        AtomEdit { delete: TextRange { start: offset, end: offset }, insert: text }
    }

    /// The edit that puts `text` in the place of `range`.
    pub fn replace(range: TextRange, text: String) -> (r: AtomEdit)
        ensures
            r@ == (AtomView { delete: range, insert: text@ }),
    {
        AtomEdit { delete: range, insert: text }
    }
}

/// Changes to a text, in the order in which they were asked for.
#[derive(Debug)]
pub struct TextEdit {
    pub atoms: Vec<AtomEdit>,
}

impl View for TextEdit {
    type V = Seq<AtomView>;

    open spec fn view(&self) -> Seq<AtomView> {
        atoms_view(self.atoms@)
    }
}

/// What a module-level name resolves to.
#[derive(Clone, Copy, Debug, PartialEq, Eq, Structural, Hash)]
pub enum Resolution {
    Module,
    Function,
    Struct,
    Enum,
    EnumVariant,
    Const,
    Static,
    Trait,
    Type,
    GenericParam,
    SelfType,
    LocalBinding,
}

/// What a candidate is.
#[derive(Clone, Copy, Debug, PartialEq, Eq, Structural, Hash)]
pub enum CompletionItemKind {
    /// A local name.
    Binding,
    Module,
    Function,
    Struct,
    Enum,
    EnumVariant,
    Const,
    Static,
    Trait,
    TypeAlias,
    TypeParam,
    SelfType,
    /// A name that is not in scope yet and comes with its import.
    Import,
}

impl Resolution {
    pub open spec fn spec_item_kind(self) -> CompletionItemKind {
        match self {
            Resolution::Module => CompletionItemKind::Module,
            Resolution::Function => CompletionItemKind::Function,
            Resolution::Struct => CompletionItemKind::Struct,
            Resolution::Enum => CompletionItemKind::Enum,
            Resolution::EnumVariant => CompletionItemKind::EnumVariant,
            Resolution::Const => CompletionItemKind::Const,
            Resolution::Static => CompletionItemKind::Static,
            Resolution::Trait => CompletionItemKind::Trait,
            Resolution::Type => CompletionItemKind::TypeAlias,
            Resolution::GenericParam => CompletionItemKind::TypeParam,
            Resolution::SelfType => CompletionItemKind::SelfType,
            Resolution::LocalBinding => CompletionItemKind::Binding,
        }
    }

    /// The kind of a candidate that resolves to this.
    #[verifier::when_used_as_spec(spec_item_kind)]
    pub fn item_kind(self) -> (r: CompletionItemKind)
        ensures
            r == self.spec_item_kind(),
    {
        match self {
            Resolution::Module => CompletionItemKind::Module,
            Resolution::Function => CompletionItemKind::Function,
            Resolution::Struct => CompletionItemKind::Struct,
            Resolution::Enum => CompletionItemKind::Enum,
            Resolution::EnumVariant => CompletionItemKind::EnumVariant,
            Resolution::Const => CompletionItemKind::Const,
            Resolution::Static => CompletionItemKind::Static,
            Resolution::Trait => CompletionItemKind::Trait,
            Resolution::Type => CompletionItemKind::TypeAlias,
            Resolution::GenericParam => CompletionItemKind::TypeParam,
            Resolution::SelfType => CompletionItemKind::SelfType,
            Resolution::LocalBinding => CompletionItemKind::Binding,
        }
    }
}

/// A candidate: the text shown for it, what it is, and the edit that
/// inserts it where that takes more than the text itself.
#[derive(Debug)]
pub struct CompletionItem {
    pub name: String,
    pub kind: CompletionItemKind,
    pub text_edit: Option<TextEdit>,
}

/// A [`CompletionItem`] as a value.
pub struct CompletionView {
    pub name: Seq<char>,
    pub kind: CompletionItemKind,
    pub text_edit: Option<Seq<AtomView>>,
}

impl View for CompletionItem {
    type V = CompletionView;

    open spec fn view(&self) -> CompletionView {
        CompletionView {
            name: self.name@,
            kind: self.kind,
            text_edit: match self.text_edit {
                Some(edit) => Some(edit@),
                None => None,
            },
        }
    }
}

/// The candidates that a list of items stands for.
pub open spec fn items_view(items: Seq<CompletionItem>) -> Seq<CompletionView> {
    items.map_values(|i: CompletionItem| i@)
}

/// The candidate for a local name.
pub open spec fn local_item(b: Binding) -> CompletionView {
    CompletionView { name: b.name, kind: CompletionItemKind::Binding, text_edit: None }
}

/// The word that is put at the cursor before the file is parsed again, so
/// that a reference stands where the user is about to type one.
pub open spec fn placeholder() -> Seq<char> {
    "intellijRulezz"@
}

/// The edit that puts the placeholder at `offset`.
pub fn completion_edit(offset: u32) -> (r: AtomEdit)
    ensures
        r@ == (AtomView { delete: TextRange { start: offset, end: offset }, insert: placeholder() }),
{
    AtomEdit::insert(offset, "intellijRulezz".to_owned())
}

/// Whether `n` is a node of kind `kind` that `offset` touches.
pub open spec fn is_at(s: Seq<SyntaxNode>, n: int, offset: u32, kind: SyntaxKind) -> bool {
    0 <= n < s.len() && s[n].kind == kind && s[n].range.spec_touches(offset)
}

/// Whether node `a` is to be taken before node `b`: it covers less text,
/// or as much and comes first.
pub open spec fn smaller(s: Seq<SyntaxNode>, a: int, b: int) -> bool {
    s[a].range.spec_len() < s[b].range.spec_len() || (s[a].range.spec_len()
        == s[b].range.spec_len() && a <= b)
}

/// Whether `r` is the smallest node of kind `kind` that `offset` touches,
/// or `None` where there is no such node.
pub open spec fn found_at(s: Seq<SyntaxNode>, r: Option<usize>, offset: u32, kind: SyntaxKind) -> bool {
    match r {
        Some(n) => is_at(s, n as int, offset, kind) && forall|c: int| #[trigger]
            is_at(s, c, offset, kind) ==> smaller(s, n as int, c),
        None => forall|c: int| !#[trigger] is_at(s, c, offset, kind),
    }
}

/// The smallest node of kind `kind` that `offset` touches; of two that cover
/// as much text, the first.
pub open spec fn smallest_at(s: Seq<SyntaxNode>, offset: u32, kind: SyntaxKind) -> Option<usize> {
    choose|r: Option<usize>| found_at(s, r, offset, kind)
}

/// There is one smallest node at most.
pub proof fn lemma_smallest_at(s: Seq<SyntaxNode>, r: Option<usize>, offset: u32, kind: SyntaxKind)
    requires
        found_at(s, r, offset, kind),
    ensures
        smallest_at(s, offset, kind) == r,
{
    let other = smallest_at(s, offset, kind);
    assert(found_at(s, other, offset, kind));
    match (r, other) {
        (Some(a), Some(b)) => {
            assert(is_at(s, a as int, offset, kind));
            assert(is_at(s, b as int, offset, kind));
            assert(smaller(s, a as int, b as int));
            assert(smaller(s, b as int, a as int));
        },
        (Some(a), None) => {
            assert(is_at(s, a as int, offset, kind));
        },
        (None, Some(b)) => {
            assert(is_at(s, b as int, offset, kind));
        },
        (None, None) => {},
    }
}

/// The smallest node of kind `kind` that `offset` touches; of two that cover
/// as much text, the first.
pub fn find_node_at_offset(tree: &SyntaxTree, offset: u32, kind: SyntaxKind) -> (r: Option<usize>)
    ensures
        found_at(tree@, r, offset, kind),
        r == smallest_at(tree@, offset, kind),
        r matches Some(n) ==> n < tree@.len(),
{
    let mut best: Option<usize> = None;
    let mut i: usize = 0;
    let n = tree.len();
    while i < n
        invariant
            i <= n == tree@.len(),
            match best {
                Some(b) => b < i && is_at(tree@, b as int, offset, kind) && forall|c: int|
                    c < i && #[trigger] is_at(tree@, c, offset, kind) ==> smaller(
                        tree@,
                        b as int,
                        c,
                    ),
                None => forall|c: int| c < i ==> !#[trigger] is_at(tree@, c, offset, kind),
            },
        decreases n - i,
    {
        let range = tree.range(i);
        if tree.kind(i) == kind && range.touches(offset) {
            match best {
                Some(b) => {
                    let current = tree.range(b);
                    if range.end - range.start < current.end - current.start {
                        best = Some(i);
                    }
                },
                None => {
                    best = Some(i);
                },
            }
        }
        i += 1;
    }
    proof {
        lemma_smallest_at(tree@, best, offset, kind);
    }
    best
}

/// The nearest node of kind `kind` among `node` and its ancestors.
pub open spec fn enclosing(s: Seq<SyntaxNode>, node: usize, kind: SyntaxKind) -> Option<usize>
    decreases node,
{
    if node >= s.len() {
        None
    } else if s[node as int].kind == kind {
        Some(node)
    } else {
        match s[node as int].parent {
            Some(p) if p < node => enclosing(s, p, kind),
            _ => None,
        }
    }
}

/// The nearest node of kind `kind` among `node` and its ancestors.
pub fn find_enclosing(tree: &SyntaxTree, node: usize, kind: SyntaxKind) -> (r: Option<usize>)
    ensures
        r == enclosing(tree@, node, kind),
        r matches Some(n) ==> n < tree@.len(),
{
    let mut n: usize = node;
    loop
        invariant
            enclosing(tree@, n, kind) == enclosing(tree@, node, kind),
        decreases n,
    {
        if n >= tree.len() {
            return None;
        }
        if tree.kind(n) == kind {
            return Some(n);
        }
        match tree.parent(n) {
            Some(p) => {
                n = p;
            },
            None => {
                return None;
            },
        }
    }
}

/// The entries of the scopes of a chain, in order.
pub open spec fn entries_along(m: ScopeMap, chain: Seq<nat>) -> Seq<Binding>
    decreases chain.len(),
{
    if chain.len() == 0 {
        Seq::empty()
    } else if chain[0] < m.scopes.len() {
        m.scopes[chain[0] as int].entries + entries_along(m, chain.skip(1))
    } else {
        entries_along(m, chain.skip(1))
    }
}

/// What is visible from a scope is what the scopes of its chain hold.
pub proof fn lemma_visible_along(m: ScopeMap, scope: nat)
    ensures
        m.visible_from(scope) == entries_along(m, m.chain_from(scope)),
    decreases scope,
{
    if scope < m.scopes.len() {
        match m.scopes[scope as int].parent {
            Some(p) => {
                if p < scope {
                    lemma_visible_along(m, p);
                    assert(m.chain_from(scope).skip(1) =~= m.chain_from(p));
                } else {
                    assert(m.chain_from(scope).skip(1) =~= Seq::<nat>::empty());
                    assert(entries_along(m, Seq::<nat>::empty()) =~= Seq::<Binding>::empty());
                    assert(m.visible_from(scope) =~= entries_along(m, m.chain_from(scope)));
                }
            },
            None => {
                assert(m.chain_from(scope).skip(1) =~= Seq::<nat>::empty());
                assert(entries_along(m, Seq::<nat>::empty()) =~= Seq::<Binding>::empty());
                assert(m.visible_from(scope) =~= entries_along(m, m.chain_from(scope)));
            },
        }
    }
}

/// The local names visible at `name_ref`: the entries of each scope of its
/// chain, innermost scope first. A name that an inner scope shadows is
/// listed again for the outer scope.
pub fn complete(tree: &SyntaxTree, name_ref: usize, scopes: &FnScopes) -> (r: Vec<CompletionItem>)
    requires
        scopes@.wf(),
    ensures
        items_view(r@) == visible_at(tree@, scopes@, name_ref).map_values(|b: Binding| local_item(b)),
{
    let chain = scopes.scope_chain(tree, name_ref);
    let ghost m = scopes@;
    let ghost ids = ids_view(chain@);
    let ghost all = entries_along(m, ids);
    proof {
        match crate::scopes::scope_of(tree@, m.scope_for, name_ref) {
            Some(scope) => {
                lemma_visible_along(m, scope);
                crate::scopes::lemma_chain_in_range(m, scope);
            },
            None => {},
        }
        assert(visible_at(tree@, m, name_ref) == all);
        assert(ids.skip(0) =~= ids);
    }
    let mut res: Vec<CompletionItem> = Vec::new();
    let mut k: usize = 0;
    while k < chain.len()
        invariant
            k <= chain@.len(),
            m == scopes@,
            ids == ids_view(chain@),
            all == entries_along(m, ids),
            forall|i: int| 0 <= i < ids.len() ==> ids[i] < m.scopes.len(),
            items_view(res@) + entries_along(m, ids.skip(k as int)).map_values(
                |b: Binding| local_item(b),
            ) == all.map_values(|b: Binding| local_item(b)),
        decreases chain@.len() - k,
    {
        let scope = chain[k];
        let entries = scopes.entries(scope);
        let ghost rest = entries_along(m, ids.skip(k + 1));
        let ghost own = m.scopes[scope as int].entries;
        proof {
            assert(ids.skip(k as int).skip(1) =~= ids.skip(k + 1));
            assert(ids.skip(k as int)[0] == scope);
            assert(ids[k as int] < m.scopes.len());
            assert(entries_along(m, ids.skip(k as int)) == own + rest);
        }
        let ghost before = res@;
        let mut j: usize = 0;
        while j < entries.len()
            invariant
                j <= entries@.len(),
                entries_view(entries@) == own,
                items_view(res@) == items_view(before) + own.take(j as int).map_values(
                    |b: Binding| local_item(b),
                ),
            decreases entries@.len() - j,
        {
            let ghost prev = res@;
            res.push(
                CompletionItem {
                    name: entries[j].name().clone(),
                    kind: CompletionItemKind::Binding,
                    text_edit: None,
                },
            );
            proof {
                assert(entries_view(entries@)[j as int] == entries@[j as int]@);
                assert(res@[prev.len() as int]@ == local_item(own[j as int]));
                assert(items_view(res@) =~= items_view(prev).push(local_item(own[j as int])));
                assert(own.take(j + 1) =~= own.take(j as int).push(own[j as int]));
                assert(items_view(res@) =~= items_view(before) + own.take(j + 1).map_values(
                    |b: Binding| local_item(b),
                ));
            }
            j += 1;
        }
        proof {
            assert(own.take(j as int) =~= own);
            assert(items_view(res@) + rest.map_values(|b: Binding| local_item(b)) =~= items_view(
                before,
            ) + (own + rest).map_values(|b: Binding| local_item(b)));
        }
        k += 1;
    }
    proof {
        assert(ids.skip(k as int) =~= Seq::<nat>::empty());
        assert(items_view(res@) =~= all.map_values(|b: Binding| local_item(b)));
    }
    res
}

/// The local candidates for the reference `name_ref`: `None` where there is
/// no reference or the reference lies in no function, else the names visible
/// at the reference in the nearest function around it.
pub open spec fn local_completions(s: Seq<SyntaxNode>, name_ref: Option<usize>) -> Option<
    Seq<CompletionView>,
> {
    match name_ref {
        Some(r) => match enclosing(s, r, SyntaxKind::FnDef) {
            Some(f) => Some(visible_in(s, f, r).map_values(|b: Binding| local_item(b))),
            None => None,
        },
        None => None,
    }
}

/// The local candidates at `offset`: those for the smallest reference that
/// `offset` touches.
pub open spec fn completions_at(s: Seq<SyntaxNode>, offset: u32) -> Option<Seq<CompletionView>> {
    local_completions(s, smallest_at(s, offset, SyntaxKind::NameRef))
}

/// The local names that can stand at `offset`.
///
/// `reparsed` is the file after [`completion_edit`] was applied to it, or
/// `None` where the file could not be parsed again. The result is `None`
/// where there is no file, where no reference touches `offset`, and where the
/// reference lies in no function.
pub fn scope_completion(reparsed: Option<&SyntaxTree>, offset: u32) -> (r: Option<
    Vec<CompletionItem>,
>)
    ensures
        match (reparsed, r) {
            (Some(file), Some(items)) => completions_at(file@, offset) == Some(items_view(items@)),
            (Some(file), None) => completions_at(file@, offset) is None,
            (None, _) => r is None,
        },
{
    let file = match reparsed {
        Some(file) => file,
        None => {
            return None;
        },
    };
    let name_ref = find_node_at_offset(file, offset, SyntaxKind::NameRef)?;
    let fn_def = find_enclosing(file, name_ref, SyntaxKind::FnDef)?;
    let scopes = compute_scopes(file, fn_def);
    Some(complete(file, name_ref, &scopes))
}

/// The names of a module, each with what it resolves to, as the resolver of
/// the module gave them.
#[derive(Debug)]
pub struct Resolver {
    names: Vec<(Name, Resolution)>,
}

/// The names that a list of resolved names stands for.
pub open spec fn names_view(names: Seq<(Name, Resolution)>) -> Seq<(Seq<char>, Resolution)> {
    names.map_values(|n: (Name, Resolution)| (n.0@, n.1))
}

impl View for Resolver {
    type V = Seq<(Seq<char>, Resolution)>;

    closed spec fn view(&self) -> Seq<(Seq<char>, Resolution)> {
        names_view(self.names@)
    }
}

impl Resolver {
    pub fn new(names: Vec<(Name, Resolution)>) -> (r: Resolver)
        ensures
            r@ == names_view(names@),
    {
        Resolver { names }
    }

    /// All names that are visible in the module.
    pub fn all_names(&self) -> (r: &Vec<(Name, Resolution)>)
        ensures
            names_view(r@) == self@,
    {
        &self.names
    }
}

/// What is known of the place where a completion was asked for.
#[derive(Debug)]
pub struct CompletionContext {
    /// The names of the module around the cursor.
    pub resolver: Resolver,
    /// The resolver for names that are not in scope, where there is one.
    pub import_resolver: Option<ImportResolver>,
    /// Whether the cursor is on a path of one segment, without a qualifier.
    pub is_trivial_path: bool,
    /// The path that is being typed.
    pub path_ident: Option<Path>,
    /// The text that a candidate replaces.
    pub source_range: TextRange,
    /// The node at the cursor, which an import is inserted for.
    pub leaf: usize,
}

/// The candidates gathered so far.
#[derive(Debug)]
pub struct Completions {
    buf: Vec<CompletionItem>,
}

impl View for Completions {
    type V = Seq<CompletionView>;

    closed spec fn view(&self) -> Seq<CompletionView> {
        items_view(self.buf@)
    }
}

impl Completions {
    pub fn new() -> (r: Completions)
        ensures
            r@ == Seq::<CompletionView>::empty(),
    {
        let r = Completions { buf: Vec::new() };
        assert(r@ =~= Seq::<CompletionView>::empty());
        r
    }

    /// The candidates that start with `items`.
    pub fn from_items(items: Vec<CompletionItem>) -> (r: Completions)
        ensures
            r@ == items_view(items@),
    {
        Completions { buf: items }
    }

    pub fn add(&mut self, item: CompletionItem)
        ensures
            final(self)@ == old(self)@.push(item@),
    {
        self.buf.push(item);
        assert(self@ =~= old(self)@.push(item@));
    }

    /// The candidates, in the order in which they were added.
    pub fn into_items(self) -> (r: Vec<CompletionItem>)
        ensures
            items_view(r@) == self@,
    {
        self.buf
    }
}

/// The text shown for a name that comes with an import: the name, then the
/// full path in brackets.
pub open spec fn import_label(name: Seq<char>, path: PathView) -> Seq<char> {
    name + " ("@ + path_text(path) + ")"@
}

/// The text shown for the name `name` when it is imported from `path`.
pub fn build_import_label(name: &str, path: &Path) -> (r: String)
    ensures
        r@ == import_label(name@, path@),
{
    let mut buf = String::new();
    buf.append(name);
    buf.append(" (");
    fmt_path(path, &mut buf);
    buf.append(")");
    assert(buf@ =~= import_label(name@, path@));
    buf
}

/// The candidate for a name of the module.
pub open spec fn name_item(name: (Seq<char>, Resolution)) -> CompletionView {
    CompletionView { name: name.0, kind: name.1.spec_item_kind(), text_edit: None }
}

/// The candidate for a name that `path` imports: it is shown with its path,
/// and its edit puts the name in the place of `range` and then makes the
/// changes `import` that insert the import.
pub open spec fn import_item(
    name: Seq<char>,
    path: PathView,
    range: TextRange,
    import: Seq<AtomView>,
) -> CompletionView {
    CompletionView {
        name: import_label(name, path),
        kind: CompletionItemKind::Import,
        text_edit: Some(seq![AtomView { delete: range, insert: name }] + import),
    }
}

/// The identifier to suggest imports for: the path that is being typed,
/// where it is a single identifier and there is an import resolver.
pub open spec fn import_ident(ctx: &CompletionContext) -> Option<Seq<char>> {
    match (ctx.path_ident, ctx.import_resolver) {
        (Some(path), Some(_)) => path@.as_ident(),
        _ => None,
    }
}

/// The names to suggest an import for: of what the crate can import, the
/// entries whose path ends in the identifier that is being typed; none where
/// there is no such identifier.
pub open spec fn import_candidates(ctx: &CompletionContext) -> Seq<(Seq<char>, PathView)> {
    match import_ident(ctx) {
        Some(name) => matching_items(import_items(), name),
        None => Seq::empty(),
    }
}

/// Whether `import` is what `import_edit` gave for the node `leaf` and a
/// path that reads `path`.
pub open spec fn is_import_edit<F: Fn(usize, &Path) -> Vec<AtomEdit>>(
    import_edit: F,
    leaf: usize,
    path: PathView,
    import: Seq<AtomView>,
) -> bool {
    exists|p: Path, v: Vec<AtomEdit>|
        p@ == path && atoms_view(v@) == import && #[trigger] call_ensures(import_edit, (leaf, &p), v)
}

/// Whether `item` is the candidate for the name and path `candidate`, with
/// the edit that `import_edit` gave for the path.
pub open spec fn is_import_item<F: Fn(usize, &Path) -> Vec<AtomEdit>>(
    import_edit: F,
    ctx: &CompletionContext,
    candidate: (Seq<char>, PathView),
    item: CompletionView,
) -> bool {
    exists|import: Seq<AtomView>| #[trigger]
        is_import_edit(import_edit, ctx.leaf, candidate.1, import) && item == import_item(
            candidate.0,
            candidate.1,
            ctx.source_range,
            import,
        )
}

/// Whether `after` is `before` and then the candidates for a path: the
/// names of the module in the order of the resolver, then one candidate for
/// each name to suggest an import for. Nothing is added where the cursor is
/// not on a path of one segment.
pub open spec fn scope_result<F: Fn(usize, &Path) -> Vec<AtomEdit>>(
    import_edit: F,
    ctx: &CompletionContext,
    before: Seq<CompletionView>,
    after: Seq<CompletionView>,
) -> bool {
    if ctx.is_trivial_path {
        let names = ctx.resolver@;
        let imports = import_candidates(ctx);
        &&& after.len() == before.len() + names.len() + imports.len()
        &&& after.take(before.len() as int) == before
        &&& forall|i: int|
            0 <= i < names.len() ==> after[before.len() + i] == name_item(#[trigger] names[i])
        &&& forall|i: int|
            0 <= i < imports.len() ==> is_import_item(
                import_edit,
                ctx,
                #[trigger] imports[i],
                after[before.len() + names.len() + i],
            )
    } else {
        after == before
    }
}

/// Adds the candidates for a path of one segment to `acc`: the names of the
/// module, and then the names that could be imported, each with the edit
/// that `import_edit` makes to insert its import.
pub fn complete_scope<F: Fn(usize, &Path) -> Vec<AtomEdit>>(
    acc: &mut Completions,
    ctx: &CompletionContext,
    import_edit: F,
)
    requires
        forall|leaf: usize, path: &Path| call_requires(import_edit, (leaf, path)),
    ensures
        scope_result(import_edit, ctx, old(acc)@, final(acc)@),
{
    if !ctx.is_trivial_path {
        return ;
    }
    let ghost before = acc@;
    let names = ctx.resolver.all_names();
    let ghost all_names = ctx.resolver@;
    let mut i: usize = 0;
    assert(acc@.take(before.len() as int) =~= before);
    while i < names.len()
        invariant
            i <= names@.len(),
            names_view(names@) == all_names,
            acc@.len() == before.len() + i,
            acc@.take(before.len() as int) == before,
            forall|k: int| 0 <= k < i ==> acc@[before.len() + k] == name_item(#[trigger] all_names[k]),
        decreases names@.len() - i,
    {
        let ghost prev = acc@;
        let item = CompletionItem {
            name: names[i].0.as_str().to_owned(),
            kind: names[i].1.item_kind(),
            text_edit: None,
        };
        assert(item@ == name_item(all_names[i as int])) by {
            assert(names_view(names@)[i as int] == (names@[i as int].0@, names@[i as int].1));
        }
        acc.add(item);
        assert(acc@.take(before.len() as int) =~= prev.take(before.len() as int));
        i += 1;
    }
    let ghost mid = acc@;
    let ghost imports = import_candidates(ctx);
    let ident = match &ctx.path_ident {
        Some(path) => path.as_ident(),
        None => None,
    };
    match (ident, &ctx.import_resolver) {
        (Some(name), Some(import_resolver)) => {
            let candidates = import_resolver.resolve_name(name);
            let mut j: usize = 0;
            while j < candidates.len()
                invariant
                    j <= candidates@.len(),
                    crate::import::items_view(candidates@) == imports,
                    forall|leaf: usize, path: &Path| call_requires(import_edit, (leaf, path)),
                    acc@.len() == mid.len() + j,
                    acc@.take(mid.len() as int) == mid,
                    forall|k: int|
                        0 <= k < j ==> is_import_item(
                            import_edit,
                            ctx,
                            #[trigger] imports[k],
                            acc@[mid.len() + k],
                        ),
                decreases candidates@.len() - j,
            {
                let ghost prev = acc@;
                let name = &candidates[j].0;
                let path = &candidates[j].1;
                assert(crate::import::items_view(candidates@)[j as int] == (name@, path@));
                let mut import = import_edit(ctx.leaf, path);
                let ghost import_atoms = atoms_view(import@);
                assert(is_import_edit(import_edit, ctx.leaf, imports[j as int].1, import_atoms));
                let mut atoms: Vec<AtomEdit> = Vec::new();
                atoms.push(AtomEdit::replace(ctx.source_range, name.clone()));
                atoms.append(&mut import);
                let item = CompletionItem {
                    name: build_import_label(name.as_str(), path),
                    kind: CompletionItemKind::Import,
                    text_edit: Some(TextEdit { atoms }),
                };
                assert(item@.text_edit->0 =~= seq![
                    AtomView { delete: ctx.source_range, insert: name@ },
                ] + import_atoms);
                assert(item@ == import_item(
                    imports[j as int].0,
                    imports[j as int].1,
                    ctx.source_range,
                    import_atoms,
                ));
                acc.add(item);
                assert(acc@.take(mid.len() as int) =~= prev.take(mid.len() as int));
                assert(is_import_item(import_edit, ctx, imports[j as int], item@));
                assert forall|k: int| 0 <= k < j + 1 implies is_import_item(
                    import_edit,
                    ctx,
                    #[trigger] imports[k],
                    acc@[mid.len() + k],
                ) by {
                    if k < j {
                        assert(acc@[mid.len() + k] == prev[mid.len() + k]);
                    } else {
                        assert(acc@[mid.len() + k] == item@);
                    }
                }
                j += 1;
            }
        },
        _ => {},
    }
    assert(acc@.take(before.len() as int) =~= mid.take(before.len() as int));
    assert forall|k: int| 0 <= k < all_names.len() implies acc@[before.len() + k] == name_item(
        #[trigger] all_names[k],
    ) by {
        assert(acc@[before.len() + k] == acc@.take(mid.len() as int)[before.len() + k]);
    }
}

/// All candidates at `offset`: the local names, then the candidates for a
/// path. `None` where there are no local candidates to begin with.
pub fn completions<F: Fn(usize, &Path) -> Vec<AtomEdit>>(
    reparsed: Option<&SyntaxTree>,
    offset: u32,
    ctx: &CompletionContext,
    import_edit: F,
) -> (r: Option<Vec<CompletionItem>>)
    requires
        forall|leaf: usize, path: &Path| call_requires(import_edit, (leaf, path)),
    ensures
        match (reparsed, r) {
            (Some(file), Some(items)) => completions_at(file@, offset) matches Some(locals)
                && scope_result(import_edit, ctx, locals, items_view(items@)),
            (Some(file), None) => completions_at(file@, offset) is None,
            (None, _) => r is None,
        },
{
    let locals = scope_completion(reparsed, offset)?;
    let mut acc = Completions::from_items(locals);
    complete_scope(&mut acc, ctx, import_edit);
    Some(acc.into_items())
}

} // verus!
