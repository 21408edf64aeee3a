use analysis_core::completion::{
    build_import_label, complete, complete_scope, completion_edit, completions, find_enclosing,
    find_node_at_offset, scope_completion, AtomEdit, CompletionContext, CompletionItem,
    CompletionItemKind, Completions, Resolution, Resolver,
};
use analysis_core::import::{Crate, ImportResolver};
use analysis_core::input::CrateId;
use analysis_core::path::{Name, Path, PathKind, PathSegment};
use analysis_core::scopes::compute_scopes;
use analysis_core::syntax::{KindClass, SyntaxKind, SyntaxNode, SyntaxTree, TextRange};

const MARKER: &str = "<|>";
const PLACEHOLDER: &str = "intellijRulezz";

/// A tree as it is written down in a test: leaves name the text they cover.
struct Outline {
    kind: SyntaxKind,
    text: &'static str,
    children: Vec<Outline>,
}

fn node(kind: SyntaxKind, children: Vec<Outline>) -> Outline {
    Outline { kind, text: "", children }
}

fn leaf(kind: SyntaxKind, text: &'static str) -> Outline {
    Outline { kind, text, children: Vec::new() }
}

fn name(text: &'static str) -> Outline {
    leaf(SyntaxKind::Name, text)
}

fn bind(text: &'static str) -> Outline {
    node(SyntaxKind::BindPat, vec![name(text)])
}

/// The reference that stands at the cursor.
fn cursor() -> Outline {
    node(
        SyntaxKind::PathExpr,
        vec![node(
            SyntaxKind::Path,
            vec![node(SyntaxKind::PathSegment, vec![leaf(SyntaxKind::NameRef, PLACEHOLDER)])],
        )],
    )
}

/// Lays the outline out over `text`: each leaf covers the next place where
/// its text stands, each other node what its children cover.
fn lay_out(
    outline: &Outline,
    text: &str,
    at: &mut usize,
    parent: Option<usize>,
    nodes: &mut Vec<SyntaxNode>,
) -> (u32, u32) {
    let index = nodes.len();
    let is_name = outline.kind == SyntaxKind::Name || outline.kind == SyntaxKind::NameRef;
    nodes.push(SyntaxNode {
        kind: outline.kind,
        parent,
        end: 0,
        range: TextRange { start: 0, end: 0 },
        text: if is_name { outline.text.to_string() } else { String::new() },
    });
    let (start, end) = if outline.children.is_empty() {
        let found = *at + text[*at..].find(outline.text).expect("the leaf is in the text");
        *at = found + outline.text.len();
        (found as u32, *at as u32)
    } else {
        let mut start = u32::MAX;
        let mut end = 0;
        for child in &outline.children {
            let (s, e) = lay_out(child, text, at, Some(index), nodes);
            start = start.min(s);
            end = end.max(e);
        }
        (start, end)
    };
    nodes[index].end = nodes.len();
    nodes[index].range = TextRange { start, end };
    (start, end)
}

/// The tree for `code`, in which the placeholder stands for the cursor
/// mark, and the offset of the cursor.
fn parse(code: &str, outline: Outline) -> (SyntaxTree, u32) {
    let offset = code.find(MARKER).expect("the code marks the cursor");
    let text = code.replace(MARKER, PLACEHOLDER);
    let mut nodes = Vec::new();
    let mut at = 0;
    lay_out(&outline, &text, &mut at, None, &mut nodes);
    (SyntaxTree::from_nodes(nodes).expect("the outline is a tree"), offset as u32)
}

fn file(items: Vec<Outline>) -> Outline {
    node(SyntaxKind::SourceFile, items)
}

fn fn_def(fn_name: &'static str, params: Vec<Outline>, body: Vec<Outline>) -> Outline {
    node(
        SyntaxKind::FnDef,
        vec![name(fn_name), node(SyntaxKind::ParamList, params), node(SyntaxKind::Block, body)],
    )
}

fn param(pat: Outline, ty: &'static str) -> Outline {
    node(SyntaxKind::Param, vec![pat, leaf(SyntaxKind::Other, ty)])
}

fn let_stmt(pat: Outline, init: Outline) -> Outline {
    node(SyntaxKind::LetStmt, vec![pat, init])
}

fn expr_stmt(expr: Outline) -> Outline {
    node(SyntaxKind::ExprStmt, vec![expr])
}

fn literal(text: &'static str) -> Outline {
    leaf(SyntaxKind::Literal, text)
}

fn call(callee: &'static str) -> Outline {
    node(SyntaxKind::CallExpr, vec![leaf(SyntaxKind::PathExpr, callee)])
}

fn some_pat(inner: &'static str) -> Outline {
    node(SyntaxKind::TupleStructPat, vec![leaf(SyntaxKind::Path, "Some"), bind(inner)])
}

fn if_let(pat: Outline, scrutinee: Outline, then: Vec<Outline>, otherwise: Option<Vec<Outline>>) -> Outline {
    let mut children =
        vec![node(SyntaxKind::Condition, vec![pat, scrutinee]), node(SyntaxKind::Block, then)];
    if let Some(otherwise) = otherwise {
        children.push(node(SyntaxKind::Block, otherwise));
    }
    node(SyntaxKind::IfExpr, children)
}

fn names(items: &[CompletionItem]) -> Vec<&str> {
    items.iter().map(|item| item.name.as_str()).collect()
}

fn kinds(items: &[CompletionItem]) -> Vec<CompletionItemKind> {
    items.iter().map(|item| item.kind).collect()
}

fn resolver(all: &[(&str, Resolution)]) -> Resolver {
    Resolver::new(
        all.iter().map(|(text, res)| (Name::new(text.to_string()), *res)).collect(),
    )
}

/// The context of a cursor on a path of one segment, in a module with the
/// names `all`, without an import resolver.
fn context(all: &[(&str, Resolution)], offset: u32) -> CompletionContext {
    CompletionContext {
        resolver: resolver(all),
        import_resolver: None,
        is_trivial_path: true,
        path_ident: Some(plain_path(&[PLACEHOLDER])),
        source_range: TextRange { start: offset, end: offset },
        leaf: 0,
    }
}

fn plain_path(segments: &[&str]) -> Path {
    path(PathKind::Plain, segments)
}

fn path(kind: PathKind, segments: &[&str]) -> Path {
    Path {
        kind,
        segments: segments
            .iter()
            .map(|s| PathSegment { name: Name::new(s.to_string()) })
            .collect(),
    }
}

fn no_import(_leaf: usize, _path: &Path) -> Vec<AtomEdit> {
    Vec::new()
}

/// All candidates at the cursor of `code`: the local names, then the names
/// `module` of the module.
fn check_reference_completion(
    code: &str,
    outline: Outline,
    module: &[(&str, Resolution)],
) -> Option<Vec<CompletionItem>> {
    let (tree, offset) = parse(code, outline);
    completions(Some(&tree), offset, &context(module, offset), no_import)
}

/// The candidates for a cursor that stands in no function body: the names
/// `module` of the module.
fn check_module_completion(module: &[(&str, Resolution)]) -> Vec<CompletionItem> {
    let mut acc = Completions::new();
    complete_scope(&mut acc, &context(module, 0), no_import);
    acc.into_items()
}

const BINDINGS_FROM_LET: &str = r"
            fn quux(x: i32) {
                let y = 92;
                1 + <|>;
                let z = ();
            }
            ";

fn bindings_from_let() -> Outline {
    file(vec![fn_def(
        "quux",
        vec![param(bind("x"), "i32")],
        vec![
            let_stmt(bind("y"), literal("92")),
            expr_stmt(node(SyntaxKind::BinExpr, vec![literal("1"), cursor()])),
            let_stmt(bind("z"), leaf(SyntaxKind::TupleExpr, "()")),
        ],
    )])
}

#[test]
fn completes_bindings_from_let() {
    let items = check_reference_completion(
        BINDINGS_FROM_LET,
        bindings_from_let(),
        &[("quux", Resolution::Function)],
    )
    .unwrap();
    assert_eq!(names(&items), vec!["y", "x", "quux"]);
    assert_eq!(
        kinds(&items),
        vec![
            CompletionItemKind::Binding,
            CompletionItemKind::Binding,
            CompletionItemKind::Function
        ]
    );
    assert!(!names(&items).contains(&"z"));
}

const BINDINGS_FROM_IF_LET: &str = r"
            fn quux() {
                if let Some(x) = foo() {
                    let y = 92;
                };
                if let Some(a) = bar() {
                    let b = 62;
                    1 + <|>
                }
            }
            ";

fn bindings_from_if_let() -> Outline {
    file(vec![fn_def(
        "quux",
        vec![],
        vec![
            expr_stmt(if_let(
                some_pat("x"),
                call("foo"),
                vec![let_stmt(bind("y"), literal("92"))],
                None,
            )),
            if_let(
                some_pat("a"),
                call("bar"),
                vec![
                    let_stmt(bind("b"), literal("62")),
                    node(SyntaxKind::BinExpr, vec![literal("1"), cursor()]),
                ],
                None,
            ),
        ],
    )])
}

#[test]
fn completes_bindings_from_if_let() {
    let items = check_reference_completion(
        BINDINGS_FROM_IF_LET,
        bindings_from_if_let(),
        &[("quux", Resolution::Function)],
    )
    .unwrap();
    assert_eq!(names(&items), vec!["b", "a", "quux"]);
}

const BINDINGS_FROM_FOR: &str = r"
            fn quux() {
                for x in &[1, 2, 3] {
                    <|>
                }
            }
            ";

fn bindings_from_for() -> Outline {
    file(vec![fn_def(
        "quux",
        vec![],
        vec![node(
            SyntaxKind::ForExpr,
            vec![
                bind("x"),
                node(
                    SyntaxKind::RefExpr,
                    vec![node(
                        SyntaxKind::ArrayExpr,
                        vec![literal("1"), literal("2"), literal("3")],
                    )],
                ),
                node(SyntaxKind::Block, vec![cursor()]),
            ],
        )],
    )])
}

// The variable of a loop over an iterator gets no scope: it is not offered
// in the body of the loop.
#[test]
fn completes_bindings_from_for() {
    let items = check_reference_completion(
        BINDINGS_FROM_FOR,
        bindings_from_for(),
        &[("quux", Resolution::Function)],
    )
    .unwrap();
    assert_eq!(names(&items), vec!["quux"]);
    assert!(!names(&items).contains(&"x"));
}

#[test]
fn completes_generic_params() {
    let code = r"
            fn quux<T>() {
                <|>
            }
            ";
    let outline = file(vec![fn_def("quux", vec![], vec![cursor()])]);
    let items = check_reference_completion(
        code,
        outline,
        &[("T", Resolution::GenericParam), ("quux", Resolution::Function)],
    )
    .unwrap();
    assert_eq!(names(&items), vec!["T", "quux"]);
    assert_eq!(
        kinds(&items),
        vec![CompletionItemKind::TypeParam, CompletionItemKind::Function]
    );
}

#[test]
fn completes_generic_params_in_struct() {
    let code = r"
            struct X<T> {
                x: <|>
            }
            ";
    let outline = file(vec![node(
        SyntaxKind::StructDef,
        vec![
            name("X"),
            node(
                SyntaxKind::NamedFieldDef,
                vec![
                    name("x"),
                    node(
                        SyntaxKind::Path,
                        vec![node(
                            SyntaxKind::PathSegment,
                            vec![leaf(SyntaxKind::NameRef, PLACEHOLDER)],
                        )],
                    ),
                ],
            ),
        ],
    )]);
    // The cursor stands in no function: there are no local candidates.
    let (tree, offset) = parse(code, outline);
    assert!(scope_completion(Some(&tree), offset).is_none());
    let items =
        check_module_completion(&[("T", Resolution::GenericParam), ("X", Resolution::Struct)]);
    assert_eq!(names(&items), vec!["T", "X"]);
    assert_eq!(kinds(&items), vec![CompletionItemKind::TypeParam, CompletionItemKind::Struct]);
}

#[test]
fn completes_module_items() {
    let code = r"
            struct Foo;
            enum Baz {}
            fn quux() {
                <|>
            }
            ";
    let outline = file(vec![
        node(SyntaxKind::StructDef, vec![name("Foo")]),
        node(SyntaxKind::Other, vec![name("Baz")]),
        fn_def("quux", vec![], vec![cursor()]),
    ]);
    let items = check_reference_completion(
        code,
        outline,
        &[
            ("Baz", Resolution::Enum),
            ("Foo", Resolution::Struct),
            ("quux", Resolution::Function),
        ],
    )
    .unwrap();
    assert_eq!(names(&items), vec!["Baz", "Foo", "quux"]);
    assert_eq!(
        kinds(&items),
        vec![
            CompletionItemKind::Enum,
            CompletionItemKind::Struct,
            CompletionItemKind::Function
        ]
    );
}

#[test]
fn completes_extern_prelude() {
    let code = r"
            //- /lib.rs
            use <|>;

            //- /other_crate/lib.rs
            // nothing here
            ";
    // The first file, in a crate that depends on `other_crate`.
    let outline = file(vec![node(
        SyntaxKind::Other,
        vec![node(
            SyntaxKind::Path,
            vec![node(SyntaxKind::PathSegment, vec![leaf(SyntaxKind::NameRef, PLACEHOLDER)])],
        )],
    )]);
    let (tree, offset) = parse(code, outline);
    assert!(find_node_at_offset(&tree, offset, SyntaxKind::NameRef).is_some());
    // The cursor stands in no function: there are no local candidates.
    assert!(scope_completion(Some(&tree), offset).is_none());
    let items = check_module_completion(&[("other_crate", Resolution::Module)]);
    assert_eq!(names(&items), vec!["other_crate"]);
    assert_eq!(kinds(&items), vec![CompletionItemKind::Module]);
}

#[test]
fn completes_module_items_in_nested_modules() {
    let code = r"
            struct Foo;
            mod m {
                struct Bar;
                fn quux() { <|> }
            }
            ";
    let outline = file(vec![
        node(SyntaxKind::StructDef, vec![name("Foo")]),
        node(
            SyntaxKind::Other,
            vec![
                name("m"),
                node(SyntaxKind::StructDef, vec![name("Bar")]),
                fn_def("quux", vec![], vec![cursor()]),
            ],
        ),
    ]);
    let items = check_reference_completion(
        code,
        outline,
        &[("Bar", Resolution::Struct), ("quux", Resolution::Function)],
    )
    .unwrap();
    assert_eq!(names(&items), vec!["Bar", "quux"]);
    assert!(!names(&items).contains(&"Foo"));
}

#[test]
fn completes_return_type() {
    let code = r"
            struct Foo;
            fn x() -> <|>
            ";
    let outline = file(vec![
        node(SyntaxKind::StructDef, vec![name("Foo")]),
        node(
            SyntaxKind::FnDef,
            vec![
                name("x"),
                node(SyntaxKind::ParamList, vec![]),
                node(
                    SyntaxKind::Path,
                    vec![node(
                        SyntaxKind::PathSegment,
                        vec![leaf(SyntaxKind::NameRef, PLACEHOLDER)],
                    )],
                ),
            ],
        ),
    ]);
    let items = check_reference_completion(
        code,
        outline,
        &[("Foo", Resolution::Struct), ("x", Resolution::Function)],
    )
    .unwrap();
    assert_eq!(names(&items), vec!["Foo", "x"]);
}

const SHADOWING: &str = r"
            fn foo() -> {
                let bar = 92;
                {
                    let bar = 62;
                    <|>
                }
            }
            ";

fn shadowing() -> Outline {
    file(vec![fn_def(
        "foo",
        vec![],
        vec![
            let_stmt(bind("bar"), literal("92")),
            node(
                SyntaxKind::BlockExpr,
                vec![node(
                    SyntaxKind::Block,
                    vec![let_stmt(bind("bar"), literal("62")), cursor()],
                )],
            ),
        ],
    )])
}

// A name that an inner scope shadows is listed once for each scope that
// introduces it, the inner one first.
#[test]
fn dont_show_both_completions_for_shadowing() {
    let (tree, offset) = parse(SHADOWING, shadowing());
    let items =
        completions(Some(&tree), offset, &context(&[("foo", Resolution::Function)], offset), no_import)
            .unwrap();
    assert_eq!(names(&items), vec!["bar", "bar", "foo"]);

    let name_ref = find_node_at_offset(&tree, offset, SyntaxKind::NameRef).unwrap();
    let fn_def = find_enclosing(&tree, name_ref, SyntaxKind::FnDef).unwrap();
    let scopes = compute_scopes(&tree, fn_def);
    let chain = scopes.scope_chain(&tree, name_ref);
    assert_eq!(chain, vec![2, 1, 0]);
    let inner = scopes.entries(2)[0].node();
    let outer = scopes.entries(1)[0].node();
    assert_eq!(tree.range(inner).start as usize, SHADOWING.find("bar = 62").unwrap());
    assert_eq!(tree.range(outer).start as usize, SHADOWING.find("bar = 92").unwrap());
}

#[test]
fn completes_self_in_methods() {
    let code = "impl S { fn foo(&self) { <|> } }";
    let outline = file(vec![node(
        SyntaxKind::Other,
        vec![
            leaf(SyntaxKind::Other, "S"),
            node(
                SyntaxKind::FnDef,
                vec![
                    name("foo"),
                    node(SyntaxKind::ParamList, vec![leaf(SyntaxKind::SelfParam, "&self")]),
                    node(SyntaxKind::Block, vec![cursor()]),
                ],
            ),
        ],
    )]);
    let items = check_reference_completion(
        code,
        outline,
        &[("Self", Resolution::SelfType), ("self", Resolution::LocalBinding)],
    )
    .unwrap();
    assert_eq!(names(&items), vec!["Self", "self"]);
    assert_eq!(kinds(&items), vec![CompletionItemKind::SelfType, CompletionItemKind::Binding]);
}

#[test]
fn completes_prelude() {
    let code = "
            //- /main.rs
            fn foo() { let x: <|> }

            //- /std/lib.rs
            #[prelude_import]
            use prelude::*;

            mod prelude {
                struct Option;
            }
            ";
    let outline = file(vec![fn_def(
        "foo",
        vec![],
        vec![node(
            SyntaxKind::LetStmt,
            vec![
                bind("x"),
                node(
                    SyntaxKind::Path,
                    vec![node(
                        SyntaxKind::PathSegment,
                        vec![leaf(SyntaxKind::NameRef, PLACEHOLDER)],
                    )],
                ),
            ],
        )],
    )]);
    let items = check_reference_completion(
        code,
        outline,
        &[
            ("Option", Resolution::Struct),
            ("foo", Resolution::Function),
            ("std", Resolution::Module),
        ],
    )
    .unwrap();
    assert_eq!(names(&items), vec!["Option", "foo", "std"]);
}

fn local_names(code: &str, outline: Outline) -> Option<Vec<String>> {
    let (tree, offset) = parse(code, outline);
    scope_completion(Some(&tree), offset)
        .map(|items| items.into_iter().map(|item| item.name).collect())
}

#[test]
fn locals_include_what_is_declared_before_the_cursor() {
    let locals = local_names(BINDINGS_FROM_LET, bindings_from_let()).unwrap();
    assert_eq!(locals, vec!["y", "x"]);
}

#[test]
fn parameters_are_visible_wherever_a_scope_is() {
    let code = "fn quux(p: u8) { let zero = 0; if let Some(x) = foo() { let y = 92; }; if let Some(a) = bar() { let b = 62; 1 + <|> } }";
    let outline = file(vec![fn_def(
        "quux",
        vec![param(bind("p"), "u8")],
        vec![
            let_stmt(bind("zero"), literal("0")),
            expr_stmt(if_let(
                some_pat("x"),
                call("foo"),
                vec![let_stmt(bind("y"), literal("92"))],
                None,
            )),
            if_let(
                some_pat("a"),
                call("bar"),
                vec![
                    let_stmt(bind("b"), literal("62")),
                    node(SyntaxKind::BinExpr, vec![literal("1"), cursor()]),
                ],
                None,
            ),
        ],
    )]);
    let (tree, _) = parse(code, outline);
    let fn_def = 1;
    assert_eq!(tree.kind(fn_def), SyntaxKind::FnDef);
    let scopes = compute_scopes(&tree, fn_def);
    let mut with_scope = 0;
    for n in 0..tree.len() {
        let chain = scopes.scope_chain(&tree, n);
        let visible = complete(&tree, n, &scopes);
        if chain.is_empty() {
            assert!(visible.is_empty());
        } else {
            with_scope += 1;
            assert_eq!(*chain.last().unwrap(), 0);
            assert_eq!(visible.last().unwrap().name, "p");
        }
    }
    assert!(with_scope > 0);
    // The pattern of a declaration in the body itself has no scope: it sees
    // nothing. One in a block further in has the scope of the expression
    // that holds the block.
    let pattern_at = |text: &str| {
        (0..tree.len())
            .find(|&n| {
                tree.kind(n) == SyntaxKind::BindPat
                    && tree.range(n).start as usize == code.find(text).unwrap()
            })
            .unwrap()
    };
    assert!(scopes.scope_chain(&tree, pattern_at("zero = 0")).is_empty());
    assert_eq!(scopes.scope_chain(&tree, pattern_at("y = 92")), vec![1, 0]);
}

#[test]
fn shadowing_lists_the_later_declaration_first() {
    let code = "fn f() { let x = 1; let x = 2; <|> }";
    let outline = file(vec![fn_def(
        "f",
        vec![],
        vec![
            let_stmt(bind("x"), literal("1")),
            let_stmt(bind("x"), literal("2")),
            cursor(),
        ],
    )]);
    let (tree, offset) = parse(code, outline);
    let name_ref = find_node_at_offset(&tree, offset, SyntaxKind::NameRef).unwrap();
    let scopes = compute_scopes(&tree, 1);
    let chain = scopes.scope_chain(&tree, name_ref);
    assert_eq!(chain, vec![2, 1, 0]);
    let items = complete(&tree, name_ref, &scopes);
    assert_eq!(names(&items), vec!["x", "x"]);
    let second = scopes.entries(chain[0])[0].node();
    let first = scopes.entries(chain[1])[0].node();
    assert_eq!(tree.range(second).start as usize, code.find("x = 2").unwrap());
    assert_eq!(tree.range(first).start as usize, code.find("x = 1").unwrap());
}

#[test]
fn a_condition_binds_for_its_first_branch_only() {
    let code = "fn f() { if let Some(a) = f() { <|> } else { other } }";
    let make = |in_then: bool| {
        let reference = |here: bool| {
            if here {
                cursor()
            } else {
                leaf(SyntaxKind::PathExpr, "other")
            }
        };
        file(vec![fn_def(
            "f",
            vec![],
            vec![if_let(
                some_pat("a"),
                call("f"),
                vec![reference(in_then)],
                Some(vec![reference(!in_then)]),
            )],
        )])
    };
    assert_eq!(local_names(code, make(true)).unwrap(), vec!["a"]);
    let code = "fn f() { if let Some(a) = f() { other } else { <|> } }";
    assert_eq!(local_names(code, make(false)).unwrap(), Vec::<String>::new());
}

#[test]
fn a_loop_condition_binds_for_its_body() {
    let code = "fn f(it: I) { while let Some(v) = it.next() { <|> } }";
    let outline = file(vec![fn_def(
        "f",
        vec![param(bind("it"), "I")],
        vec![node(
            SyntaxKind::WhileExpr,
            vec![
                node(SyntaxKind::Condition, vec![some_pat("v"), call("it.next")]),
                node(SyntaxKind::Block, vec![cursor()]),
            ],
        )],
    )]);
    assert_eq!(local_names(code, outline).unwrap(), vec!["v", "it"]);
}

#[test]
fn an_initializer_does_not_see_its_own_declaration() {
    let code = "fn f(p: u8) { let w = 0; let x = <|>; }";
    let outline = file(vec![fn_def(
        "f",
        vec![param(bind("p"), "u8")],
        vec![let_stmt(bind("w"), literal("0")), let_stmt(bind("x"), cursor())],
    )]);
    assert_eq!(local_names(code, outline).unwrap(), vec!["w", "p"]);
}

#[test]
fn patterns_bind_from_left_to_right_and_skip_wildcards() {
    let code = "fn f((a, _, (b, c)): T) { <|> }";
    let outline = file(vec![fn_def(
        "f",
        vec![param(
            node(
                SyntaxKind::TuplePat,
                vec![
                    bind("a"),
                    leaf(SyntaxKind::PlaceholderPat, "_"),
                    node(SyntaxKind::TuplePat, vec![bind("b"), bind("c")]),
                ],
            ),
            "T",
        )],
        vec![cursor()],
    )]);
    assert_eq!(local_names(code, outline).unwrap(), vec!["a", "b", "c"]);
}

#[test]
fn a_pattern_without_a_name_binds_nothing() {
    let code = "fn f() { let _ = 1; <|> }";
    let outline = file(vec![fn_def(
        "f",
        vec![],
        vec![
            let_stmt(node(SyntaxKind::BindPat, vec![leaf(SyntaxKind::Other, "_")]), literal("1")),
            cursor(),
        ],
    )]);
    assert_eq!(local_names(code, outline).unwrap(), Vec::<String>::new());
}

#[test]
fn no_file_no_reference_and_no_function_give_nothing() {
    assert!(scope_completion(None, 0).is_none());
    let (tree, offset) = parse(BINDINGS_FROM_LET, bindings_from_let());
    assert!(scope_completion(Some(&tree), 0).is_none());
    assert!(scope_completion(Some(&tree), offset).is_some());
    let code = "static S: u8 = <|>;";
    let outline = file(vec![node(SyntaxKind::Other, vec![name("S"), cursor()])]);
    let (tree, offset) = parse(code, outline);
    assert!(find_node_at_offset(&tree, offset, SyntaxKind::NameRef).is_some());
    assert!(scope_completion(Some(&tree), offset).is_none());
}

#[test]
fn a_node_outside_the_body_has_an_empty_chain() {
    let (tree, _) = parse(BINDINGS_FROM_LET, bindings_from_let());
    let scopes = compute_scopes(&tree, 1);
    assert_eq!(scopes.scope_for(&tree, 0), None);
    assert!(scopes.scope_chain(&tree, 0).is_empty());
    assert!(scopes.scope_chain(&tree, 1).is_empty());
    assert!(scopes.scope_chain(&tree, tree.len() + 7).is_empty());
}

#[test]
fn the_smallest_node_at_an_offset_wins() {
    let nodes = vec![
        plain(SyntaxKind::SourceFile, None, 4, 0, 10),
        plain(SyntaxKind::NameRef, Some(0), 3, 0, 10),
        plain(SyntaxKind::NameRef, Some(1), 3, 2, 6),
        plain(SyntaxKind::NameRef, Some(0), 4, 4, 8),
    ];
    let tree = SyntaxTree::from_nodes(nodes).unwrap();
    assert_eq!(find_node_at_offset(&tree, 1, SyntaxKind::NameRef), Some(1));
    assert_eq!(find_node_at_offset(&tree, 2, SyntaxKind::NameRef), Some(2));
    assert_eq!(find_node_at_offset(&tree, 5, SyntaxKind::NameRef), Some(2));
    assert_eq!(find_node_at_offset(&tree, 7, SyntaxKind::NameRef), Some(3));
    assert_eq!(find_node_at_offset(&tree, 10, SyntaxKind::NameRef), Some(1));
    assert_eq!(find_node_at_offset(&tree, 11, SyntaxKind::NameRef), None);
    assert_eq!(find_node_at_offset(&tree, 5, SyntaxKind::FnDef), None);
    assert_eq!(find_enclosing(&tree, 2, SyntaxKind::SourceFile), Some(0));
    assert_eq!(find_enclosing(&tree, 2, SyntaxKind::NameRef), Some(2));
    assert_eq!(find_enclosing(&tree, 2, SyntaxKind::FnDef), None);
}

fn plain(kind: SyntaxKind, parent: Option<usize>, end: usize, from: u32, to: u32) -> SyntaxNode {
    SyntaxNode { kind, parent, end, range: TextRange { start: from, end: to }, text: String::new() }
}

#[test]
fn node_lists_that_are_no_trees_are_refused() {
    let good = |nodes: Vec<SyntaxNode>| SyntaxTree::from_nodes(nodes).is_some();
    let root = |end| plain(SyntaxKind::SourceFile, None, end, 0, 9);
    let child = |parent, end| plain(SyntaxKind::Other, Some(parent), end, 0, 9);
    assert!(!good(vec![]));
    assert!(good(vec![root(1)]));
    assert!(good(vec![root(3), child(0, 3), child(1, 3)]));
    assert!(good(vec![root(3), child(0, 2), child(0, 3)]));
    // The root spans the list and has no parent.
    assert!(!good(vec![root(2)]));
    assert!(!good(vec![child(0, 1)]));
    // A node without a parent that is not the root.
    assert!(!good(vec![root(2), root(2)]));
    // A parent that comes later, or is the node itself.
    assert!(!good(vec![root(2), child(1, 2)]));
    // A node outside the subtree of its parent.
    assert!(!good(vec![root(3), child(0, 2), child(1, 3)]));
    // A parent that is not the innermost node around the child.
    assert!(!good(vec![root(3), child(0, 3), child(0, 3)]));
    // A subtree that ends after that of its parent, or before it starts.
    assert!(!good(vec![root(3), child(0, 2), child(1, 3)]));
    assert!(!good(vec![root(2), child(0, 1)]));
    assert!(!good(vec![root(2), child(0, 3)]));
    // A range that ends before it starts.
    assert!(!good(vec![plain(SyntaxKind::SourceFile, None, 1, 5, 4)]));
}

#[test]
fn children_are_found_by_class_and_position() {
    let (tree, _) = parse(BINDINGS_FROM_LET, bindings_from_let());
    let body = tree.first_child(1, KindClass::Kind(SyntaxKind::Block)).unwrap();
    let first = tree.nth_child(body, KindClass::Stmt, 0).unwrap();
    let second = tree.nth_child(body, KindClass::Stmt, 1).unwrap();
    let third = tree.nth_child(body, KindClass::Stmt, 2).unwrap();
    assert_eq!(tree.kind(first), SyntaxKind::LetStmt);
    assert_eq!(tree.kind(second), SyntaxKind::ExprStmt);
    assert_eq!(tree.kind(third), SyntaxKind::LetStmt);
    assert_eq!(tree.nth_child(body, KindClass::Stmt, 3), None);
    assert_eq!(tree.first_child(body, KindClass::Expr), None);
    assert_eq!(tree.parent(first), Some(body));
    assert_eq!(tree.end(first), second);
    let pat = tree.first_child(first, KindClass::Pat).unwrap();
    assert_eq!(tree.kind(pat), SyntaxKind::BindPat);
    let pat_name = tree.first_child(pat, KindClass::Kind(SyntaxKind::Name)).unwrap();
    assert_eq!(tree.text(pat_name), "y");
    assert_eq!(tree.parent(0), None);
}

#[test]
fn the_placeholder_is_inserted_at_the_cursor() {
    let edit = completion_edit(17);
    assert_eq!(edit.delete, TextRange { start: 17, end: 17 });
    assert_eq!(edit.insert, "intellijRulezz");
}

#[test]
fn nothing_is_added_off_a_trivial_path() {
    let mut ctx = context(&[("quux", Resolution::Function)], 0);
    ctx.is_trivial_path = false;
    ctx.path_ident = Some(plain_path(&["Debug"]));
    ctx.import_resolver = Some(ImportResolver::new(Crate { crate_id: CrateId(0) }));
    let mut acc = Completions::new();
    complete_scope(&mut acc, &ctx, no_import);
    assert!(acc.into_items().is_empty());
}

fn import_context(ident: Option<Path>, with_resolver: bool) -> CompletionContext {
    let mut ctx = context(&[("quux", Resolution::Function)], 40);
    ctx.source_range = TextRange { start: 40, end: 43 };
    ctx.leaf = 5;
    ctx.path_ident = ident;
    if with_resolver {
        ctx.import_resolver = Some(ImportResolver::new(Crate { crate_id: CrateId(3) }));
    }
    ctx
}

fn use_last_segment(leaf: usize, path: &Path) -> Vec<AtomEdit> {
    vec![AtomEdit::insert(
        leaf as u32,
        format!("use {};\n", path.segments.last().unwrap().name.as_str()),
    )]
}

#[test]
fn imports_are_suggested_for_a_single_identifier() {
    let ctx = import_context(Some(plain_path(&["Debug"])), true);
    let mut acc = Completions::from_items(vec![CompletionItem {
        name: "local".to_string(),
        kind: CompletionItemKind::Binding,
        text_edit: None,
    }]);
    complete_scope(&mut acc, &ctx, use_last_segment);
    let items = acc.into_items();
    assert_eq!(names(&items), vec!["local", "quux", "DummyDebug (std::fmt::Debug)"]);
    assert_eq!(items[2].kind, CompletionItemKind::Import);
    assert!(items[0].text_edit.is_none());
    assert!(items[1].text_edit.is_none());
    let edit = items[2].text_edit.as_ref().unwrap();
    assert_eq!(edit.atoms.len(), 2);
    assert_eq!(edit.atoms[0].delete, TextRange { start: 40, end: 43 });
    assert_eq!(edit.atoms[0].insert, "DummyDebug");
    assert_eq!(edit.atoms[1].delete, TextRange { start: 5, end: 5 });
    assert_eq!(edit.atoms[1].insert, "use Debug;\n");

    let ctx = import_context(Some(plain_path(&["Display"])), true);
    let mut acc = Completions::new();
    complete_scope(&mut acc, &ctx, use_last_segment);
    let items = acc.into_items();
    assert_eq!(names(&items), vec!["quux", "DummyDisplay (std::fmt::Display)"]);
    let edit = items[1].text_edit.as_ref().unwrap();
    assert_eq!(edit.atoms[0].insert, "DummyDisplay");
    assert_eq!(edit.atoms[1].insert, "use Display;\n");
}

#[test]
fn no_import_is_suggested_for_a_name_that_ends_no_path() {
    for ident in ["Dum", "DummyDebug", "fmt", "quux"] {
        let ctx = import_context(Some(plain_path(&[ident])), true);
        let mut acc = Completions::new();
        complete_scope(&mut acc, &ctx, use_last_segment);
        assert_eq!(names(&acc.into_items()), vec!["quux"]);
    }
}

#[test]
fn imports_need_a_plain_identifier_and_a_resolver() {
    let added = |path: Option<Path>, with_resolver: bool| {
        let mut ctx = import_context(path, with_resolver);
        ctx.resolver = resolver(&[]);
        let mut acc = Completions::new();
        complete_scope(&mut acc, &ctx, no_import);
        acc.into_items().len()
    };
    assert_eq!(added(Some(plain_path(&["Debug"])), true), 1);
    assert_eq!(added(Some(plain_path(&["Debug"])), false), 0);
    assert_eq!(added(None, true), 0);
    assert_eq!(added(Some(plain_path(&["fmt", "Debug"])), true), 0);
    assert_eq!(added(Some(plain_path(&[])), true), 0);
    assert_eq!(added(Some(path(PathKind::Crate, &["Debug"])), true), 0);
    assert_eq!(added(Some(path(PathKind::Self_, &["Debug"])), true), 0);
}

#[test]
fn import_labels_name_the_full_path() {
    assert_eq!(build_import_label("Debug", &plain_path(&["std", "fmt", "Debug"])), "Debug (std::fmt::Debug)");
    assert_eq!(build_import_label("x", &path(PathKind::Crate, &["a", "x"])), "x (crate::a::x)");
    assert_eq!(build_import_label("x", &path(PathKind::Self_, &["x"])), "x (self::x)");
    assert_eq!(build_import_label("x", &path(PathKind::Super, &["m", "x"])), "x (super::m::x)");
    assert_eq!(build_import_label("x", &path(PathKind::Abs, &["k", "x"])), "x (k::x)");
    assert_eq!(build_import_label("", &plain_path(&[])), " ()");
}

#[test]
fn expressions_inside_a_plain_expression_are_walked() {
    let code = "fn f(p: u8) { let s = 1 + if let Some(a) = x() { 0 } else { 1 }; g(1) + if let Some(b) = y() { <|> } else { 0 }; }";
    let outline = file(vec![fn_def(
        "f",
        vec![param(bind("p"), "u8")],
        vec![
            let_stmt(
                bind("s"),
                node(
                    SyntaxKind::BinExpr,
                    vec![
                        literal("1"),
                        if_let(some_pat("a"), call("x"), vec![literal("0")], Some(vec![literal("1")])),
                    ],
                ),
            ),
            expr_stmt(node(
                SyntaxKind::BinExpr,
                vec![
                    call("g"),
                    if_let(some_pat("b"), call("y"), vec![cursor()], Some(vec![literal("0")])),
                ],
            )),
        ],
    )]);
    assert_eq!(local_names(code, outline).unwrap(), vec!["b", "s", "p"]);
}

#[test]
fn an_initializer_is_marked_but_not_walked() {
    // The conditional stands in an initializer: its condition gets no scope.
    let code = "fn f(p: u8) { let s = if let Some(a) = x() { <|> } else { 1 }; }";
    let outline = file(vec![fn_def(
        "f",
        vec![param(bind("p"), "u8")],
        vec![let_stmt(
            bind("s"),
            if_let(some_pat("a"), call("x"), vec![cursor()], Some(vec![literal("1")])),
        )],
    )]);
    assert_eq!(local_names(code, outline).unwrap(), vec!["p"]);
}

#[test]
fn the_body_of_a_loop_over_an_iterator_is_not_walked() {
    let code = "fn f(p: u8) { for x in xs { let y = 1; <|> } }";
    let outline = file(vec![fn_def(
        "f",
        vec![param(bind("p"), "u8")],
        vec![node(
            SyntaxKind::ForExpr,
            vec![
                bind("x"),
                leaf(SyntaxKind::PathExpr, "xs"),
                node(SyntaxKind::Block, vec![let_stmt(bind("y"), literal("1")), cursor()]),
            ],
        )],
    )]);
    assert_eq!(local_names(code, outline).unwrap(), vec!["p"]);
}

#[test]
fn a_block_in_a_closure_is_walked_in_the_scope_around_it() {
    let code = "fn f(p: u8) { let k = 0; run(|c| { let q = 1; <|> }) }";
    let outline = file(vec![fn_def(
        "f",
        vec![param(bind("p"), "u8")],
        vec![
            let_stmt(bind("k"), literal("0")),
            node(
                SyntaxKind::LambdaExpr,
                vec![
                    node(SyntaxKind::ParamList, vec![node(SyntaxKind::Param, vec![bind("c")])]),
                    node(
                        SyntaxKind::BlockExpr,
                        vec![node(
                            SyntaxKind::Block,
                            vec![let_stmt(bind("q"), literal("1")), cursor()],
                        )],
                    ),
                ],
            ),
        ],
    )]);
    assert_eq!(local_names(code, outline).unwrap(), vec!["q", "k", "p"]);
}

#[test]
fn a_conditional_without_a_pattern_adds_no_scope() {
    let code = "fn f(p: u8) { if p { let a = 1; <|> } }";
    let outline = file(vec![fn_def(
        "f",
        vec![param(bind("p"), "u8")],
        vec![node(
            SyntaxKind::IfExpr,
            vec![
                node(SyntaxKind::Condition, vec![leaf(SyntaxKind::PathExpr, "p {")]),
                node(SyntaxKind::Block, vec![let_stmt(bind("a"), literal("1")), cursor()]),
            ],
        )],
    )]);
    let (tree, offset) = parse(code, outline);
    let name_ref = find_node_at_offset(&tree, offset, SyntaxKind::NameRef).unwrap();
    let scopes = compute_scopes(&tree, 1);
    assert_eq!(scopes.len(), 2);
    assert_eq!(scopes.parent(1), Some(0));
    assert_eq!(scopes.parent(0), None);
    assert_eq!(scopes.scope_chain(&tree, name_ref), vec![1, 0]);
    assert_eq!(names(&complete(&tree, name_ref, &scopes)), vec!["a", "p"]);
}
