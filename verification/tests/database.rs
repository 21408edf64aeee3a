use analysis_core::db::{Canceled, Database, FilePosition, FileRange};
use analysis_core::input::{source_root_crates, CrateGraph, CrateId, FileId, SourceRoot, SourceRootId};
use analysis_core::syntax::{SyntaxKind, SyntaxNode, SyntaxTree, TextRange};
use relative_path::RelativePathBuf;

fn tree(len: u32) -> SyntaxTree {
    SyntaxTree::from_nodes(vec![SyntaxNode {
        kind: SyntaxKind::SourceFile,
        parent: None,
        end: 1,
        range: TextRange { start: 0, end: len },
        text: String::new(),
    }])
    .unwrap()
}

fn root(files: &[(u32, &str)]) -> SourceRoot {
    let mut root = SourceRoot::new();
    for (file, path) in files {
        root.insert(FileId(*file), RelativePathBuf::from(*path));
    }
    root
}

#[test]
fn a_new_database_is_empty() {
    let db = Database::new();
    assert_eq!(db.revision(), 0);
    assert!(db.source_file(FileId(1)).is_none());
    assert_eq!(db.check_canceled(0), Ok(()));
}

#[test]
fn inputs_are_overwritten_whole() {
    let mut db = Database::new();
    db.set_file_text(FileId(1), "fn a() {}".to_string());
    db.set_file_text(FileId(2), "fn b() {}".to_string());
    assert_eq!(db.file_text(FileId(1)), "fn a() {}");
    assert_eq!(db.file_text(FileId(2)), "fn b() {}");
    db.set_file_text(FileId(1), "x".to_string());
    assert_eq!(db.file_text(FileId(1)), "x");
    assert_eq!(db.file_text(FileId(2)), "fn b() {}");

    db.set_file_relative_path(FileId(1), RelativePathBuf::from("src/lib.rs"));
    assert_eq!(db.file_relative_path(FileId(1)), RelativePathBuf::from("src/lib.rs"));
    db.set_file_relative_path(FileId(1), RelativePathBuf::from("src/main.rs"));
    assert_eq!(db.file_relative_path(FileId(1)), RelativePathBuf::from("src/main.rs"));
    assert_eq!(db.file_relative_path(FileId(1)).as_str(), "src/main.rs");

    db.set_file_source_root(FileId(1), SourceRootId(4));
    assert_eq!(db.file_source_root(FileId(1)), SourceRootId(4));
    db.set_file_source_root(FileId(1), SourceRootId(5));
    assert_eq!(db.file_source_root(FileId(1)), SourceRootId(5));

    db.set_source_root(SourceRootId(5), root(&[(1, "src/main.rs"), (2, "src/b.rs")]));
    assert_eq!(db.source_root(SourceRootId(5)).len(), 2);
    db.set_source_root(SourceRootId(5), root(&[(2, "src/b.rs")]));
    assert_eq!(db.source_root(SourceRootId(5)).len(), 1);
    assert_eq!(db.source_root(SourceRootId(5)).file(0), FileId(2));

    db.set_local_roots(vec![SourceRootId(5)]);
    db.set_library_roots(vec![SourceRootId(8), SourceRootId(9)]);
    assert_eq!(db.local_roots(), &vec![SourceRootId(5)]);
    assert_eq!(db.library_roots(), &vec![SourceRootId(8), SourceRootId(9)]);
    db.set_local_roots(vec![]);
    assert!(db.local_roots().is_empty());
    assert_eq!(db.library_roots().len(), 2);

    let mut graph = CrateGraph::new();
    graph.add_crate_root(Some(FileId(1)));
    db.set_crate_graph(graph);
    assert_eq!(db.crate_graph().len(), 1);
    db.set_crate_graph(CrateGraph::new());
    assert_eq!(db.crate_graph().len(), 0);
}

#[test]
fn every_write_to_an_input_starts_a_revision() {
    let mut db = Database::new();
    db.set_file_text(FileId(1), "a".to_string());
    assert_eq!(db.revision(), 1);
    db.set_file_text(FileId(1), "a".to_string());
    assert_eq!(db.revision(), 2);
    db.set_file_relative_path(FileId(1), RelativePathBuf::from("a.rs"));
    db.set_file_source_root(FileId(1), SourceRootId(0));
    db.set_source_root(SourceRootId(0), SourceRoot::new());
    db.set_local_roots(vec![]);
    db.set_library_roots(vec![]);
    db.set_crate_graph(CrateGraph::new());
    assert_eq!(db.revision(), 8);
    db.set_source_file(FileId(1), tree(1));
    assert_eq!(db.source_root_crates(SourceRootId(0)), vec![]);
    assert_eq!(db.revision(), 8);
}

#[test]
fn a_tree_is_held_until_its_text_is_written() {
    let mut db = Database::new();
    db.set_file_text(FileId(1), "first".to_string());
    assert!(db.source_file(FileId(1)).is_none());
    db.set_source_file(FileId(1), tree(5));
    assert_eq!(db.source_file(FileId(1)).unwrap().range(0).end, 5);
    assert_eq!(db.source_file(FileId(1)).unwrap().range(0).end, 5);

    db.set_file_text(FileId(1), "second text".to_string());
    assert!(db.source_file(FileId(1)).is_none());
    assert_eq!(db.file_text(FileId(1)), "second text");
    db.set_source_file(FileId(1), tree(11));
    assert_eq!(db.source_file(FileId(1)).unwrap().range(0).end, 11);

    // The same text again is a write all the same.
    db.set_file_text(FileId(1), "second text".to_string());
    assert!(db.source_file(FileId(1)).is_none());
}

#[test]
fn a_write_to_another_input_keeps_a_tree() {
    let mut db = Database::new();
    db.set_file_text(FileId(1), "one".to_string());
    db.set_file_text(FileId(2), "two".to_string());
    db.set_source_file(FileId(1), tree(3));
    db.set_source_file(FileId(2), tree(4));

    db.set_file_text(FileId(2), "two!".to_string());
    assert_eq!(db.source_file(FileId(1)).unwrap().range(0).end, 3);
    assert!(db.source_file(FileId(2)).is_none());

    db.set_file_text(FileId(3), "three".to_string());
    db.set_file_relative_path(FileId(1), RelativePathBuf::from("one.rs"));
    db.set_file_source_root(FileId(1), SourceRootId(0));
    db.set_source_root(SourceRootId(0), root(&[(1, "one.rs")]));
    db.set_local_roots(vec![SourceRootId(0)]);
    db.set_library_roots(vec![]);
    db.set_crate_graph(CrateGraph::new());
    assert_eq!(db.source_file(FileId(1)).unwrap().range(0).end, 3);
    assert_eq!(db.file_text(FileId(1)), "one");
}

#[test]
fn a_reader_is_canceled_by_the_next_write() {
    let mut db = Database::new();
    db.set_file_text(FileId(1), "one".to_string());
    let started_at = db.revision();
    assert_eq!(db.check_canceled(started_at), Ok(()));
    // Storing what was derived cancels nobody.
    db.set_source_file(FileId(1), tree(3));
    assert_eq!(db.check_canceled(started_at), Ok(()));
    // Any write does, also one to an input that the reader never read.
    db.set_file_text(FileId(2), "two".to_string());
    assert_eq!(db.check_canceled(started_at), Err(Canceled));
    assert_eq!(db.check_canceled(db.revision()), Ok(()));
    // What the reader had derived before is still held.
    assert!(db.source_file(FileId(1)).is_some());
}

#[test]
fn catch_canceled_hands_the_answer_on() {
    let mut db = Database::new();
    db.set_file_text(FileId(1), "one".to_string());
    let started_at = db.revision();
    let read = |db: &Database| -> Result<usize, Canceled> {
        db.check_canceled(started_at)?;
        Ok(db.file_text(FileId(1)).len())
    };
    assert_eq!(db.catch_canceled(read), Ok(3));
    db.set_file_text(FileId(1), "three".to_string());
    assert_eq!(db.catch_canceled(read), Err(Canceled));
    assert_eq!(db.catch_canceled(|_: &Database| Ok::<u8, Canceled>(7)), Ok(7));
}

#[test]
fn the_crates_of_a_root_follow_the_root_and_the_graph() {
    let mut db = Database::new();
    let mut graph = CrateGraph::new();
    let main = graph.add_crate_root(Some(FileId(1))).unwrap();
    let lib = graph.add_crate_root(Some(FileId(3))).unwrap();
    let other = graph.add_crate_root(Some(FileId(9))).unwrap();
    assert_eq!((main, lib, other), (CrateId(0), CrateId(1), CrateId(2)));
    db.set_crate_graph(graph);
    db.set_source_root(SourceRootId(0), root(&[(3, "lib.rs"), (2, "util.rs"), (1, "main.rs")]));
    db.set_source_root(SourceRootId(1), root(&[(9, "lib.rs")]));

    assert_eq!(db.source_root_crates(SourceRootId(0)), vec![lib, main]);
    assert_eq!(db.source_root_crates(SourceRootId(0)), vec![lib, main]);
    assert_eq!(db.source_root_crates(SourceRootId(1)), vec![other]);

    // A write to something else keeps the answer.
    db.set_file_text(FileId(1), "fn main() {}".to_string());
    assert_eq!(db.source_root_crates(SourceRootId(0)), vec![lib, main]);

    // A new root for the same id is what counts from then on.
    db.set_source_root(SourceRootId(0), root(&[(1, "main.rs")]));
    assert_eq!(db.source_root_crates(SourceRootId(0)), vec![main]);
    assert_eq!(db.source_root_crates(SourceRootId(1)), vec![other]);

    // And so is a new graph.
    let mut graph = CrateGraph::new();
    graph.add_crate_root(Some(FileId(9)));
    db.set_crate_graph(graph);
    assert_eq!(db.source_root_crates(SourceRootId(0)), vec![]);
    assert_eq!(db.source_root_crates(SourceRootId(1)), vec![CrateId(0)]);
}

#[test]
fn crates_are_found_by_their_root_file() {
    let mut graph = CrateGraph::new();
    assert_eq!(graph.crate_id_for_crate_root(FileId(1)), None);
    let a = graph.add_crate_root(Some(FileId(1))).unwrap();
    let b = graph.add_crate_root(None).unwrap();
    let c = graph.add_crate_root(Some(FileId(1))).unwrap();
    let d = graph.add_crate_root(Some(FileId(2))).unwrap();
    assert_eq!(graph.len(), 4);
    assert_eq!(graph.crate_id_for_crate_root(FileId(1)), Some(a));
    assert_eq!(graph.crate_id_for_crate_root(FileId(2)), Some(d));
    assert_eq!(graph.crate_id_for_crate_root(FileId(3)), None);
    assert_eq!(graph.crate_root(a), Some(FileId(1)));
    assert_eq!(graph.crate_root(b), None);
    assert_eq!(graph.crate_root(c), Some(FileId(1)));

    // Dependencies have names and may form a cycle.
    graph.add_dep(a, "d".to_string(), d);
    graph.add_dep(d, "a".to_string(), a);
    graph.add_dep(a, "second".to_string(), c);
    assert_eq!(graph.dependencies(a).len(), 2);
    assert_eq!(graph.dependencies(a)[0].crate_id, d);
    assert_eq!(graph.dependencies(a)[0].name, "d");
    assert_eq!(graph.dependencies(a)[1].crate_id, c);
    assert_eq!(graph.dependencies(d)[0].crate_id, a);
    assert!(graph.dependencies(b).is_empty());

    let files = root(&[(2, "two.rs"), (5, "five.rs"), (1, "one.rs")]);
    assert_eq!(source_root_crates(&files, &graph), vec![d, a]);
    assert_eq!(source_root_crates(&SourceRoot::new(), &graph), vec![]);
    assert_eq!(source_root_crates(&files, &CrateGraph::new()), vec![]);
}

#[test]
fn a_source_root_holds_each_file_once() {
    let mut files = SourceRoot::new();
    assert_eq!(files.len(), 0);
    assert_eq!(files.path(FileId(1)), None);
    files.insert(FileId(1), RelativePathBuf::from("a.rs"));
    files.insert(FileId(2), RelativePathBuf::from("b.rs"));
    files.insert(FileId(1), RelativePathBuf::from("c.rs"));
    assert_eq!(files.len(), 2);
    assert_eq!(files.file(0), FileId(1));
    assert_eq!(files.file(1), FileId(2));
    assert_eq!(files.path(FileId(1)), Some(RelativePathBuf::from("c.rs")));
    assert_eq!(files.path(FileId(2)), Some(RelativePathBuf::from("b.rs")));
    assert_eq!(files.path(FileId(3)), None);
}

#[test]
fn positions_and_ranges_name_their_file() {
    let position = FilePosition { file_id: FileId(3), offset: 14 };
    let range = FileRange { file_id: FileId(3), range: TextRange { start: 2, end: 5 } };
    assert_eq!(position.file_id, range.file_id);
    assert_eq!(position.offset, 14);
    assert!(range.range.touches(2) && range.range.touches(5) && !range.range.touches(6));
    let copy = position;
    assert_eq!(copy.offset, position.offset);
}

#[test]
fn a_runtime_without_a_pending_write_cancels_nobody() {
    let runtime = salsa::Runtime::default();
    assert_eq!(analysis_core::db::check_canceled(&runtime), Ok(()));
    assert_eq!(analysis_core::db::check_canceled(&runtime), Ok(()));
    assert_eq!(analysis_core::db::cancellation_outcome(false), Ok(()));
    assert_eq!(analysis_core::db::cancellation_outcome(true), Err(Canceled));
}

#[test]
fn held_crates_are_handed_out_until_their_root_or_the_graph_is_written() {
    let mut db = Database::new();
    let mut graph = CrateGraph::new();
    let main = graph.add_crate_root(Some(FileId(1))).unwrap();
    db.set_crate_graph(graph);
    db.set_source_root(SourceRootId(0), root(&[(1, "main.rs")]));
    db.set_source_root(SourceRootId(1), root(&[(2, "lib.rs")]));
    let revision = db.revision();
    assert_eq!(db.source_root_crates(SourceRootId(0)), vec![main]);
    assert_eq!(db.source_root_crates(SourceRootId(1)), vec![]);
    // Deriving and handing out is no write.
    assert_eq!(db.source_root_crates(SourceRootId(0)), vec![main]);
    assert_eq!(db.revision(), revision);
    assert_eq!(db.check_canceled(revision), Ok(()));
    // The other root is written: the crates of this one are as they were.
    db.set_source_root(SourceRootId(1), root(&[(1, "main.rs"), (2, "lib.rs")]));
    assert_eq!(db.source_root_crates(SourceRootId(0)), vec![main]);
    assert_eq!(db.source_root_crates(SourceRootId(1)), vec![main]);
    // The root itself is written: its crates follow.
    db.set_source_root(SourceRootId(0), root(&[(2, "lib.rs")]));
    assert_eq!(db.source_root_crates(SourceRootId(0)), vec![]);
    assert_eq!(db.source_root_crates(SourceRootId(1)), vec![main]);
}

#[test]
fn the_second_text_is_the_one_that_a_tree_is_held_for() {
    let mut db = Database::new();
    db.set_file_text(FileId(1), "fn a() {}".to_string());
    // With and without a tree derived in between.
    db.set_source_file(FileId(1), tree(9));
    db.set_file_text(FileId(1), "fn b() { }".to_string());
    assert!(db.source_file(FileId(1)).is_none());
    assert_eq!(db.file_text(FileId(1)), "fn b() { }");
    db.set_source_file(FileId(1), tree(10));
    assert_eq!(db.source_file(FileId(1)).unwrap().range(0).end, 10);

    db.set_file_text(FileId(2), "fn a() {}".to_string());
    db.set_file_text(FileId(2), "fn b() { }".to_string());
    assert!(db.source_file(FileId(2)).is_none());
    db.set_source_file(FileId(2), tree(10));
    assert_eq!(db.source_file(FileId(2)).unwrap().range(0).end, 10);
    assert!(db.has_file_text(FileId(2)) && !db.has_file_text(FileId(3)));
}
