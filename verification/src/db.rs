//! The query database.
//!
//! The database holds the inputs that the host sets and what was derived
//! from them. Every write to an input starts a new revision. A derived value
//! is kept together with the revision in which it was derived and is handed
//! out again only while no input that it was derived from has changed since:
//! a write to another input leaves it valid.
//!
//! Cancellation goes by revisions, not by dependencies. A reader notes the
//! revision in which it starts and asks [`Database::check_canceled`] now and
//! then; the answer is [`Canceled`] as soon as any input was written since.
//! Storing a derived value is no write.
//!
//! A host that keeps its inputs in `salsa` asks [`check_canceled`] instead,
//! with the runtime of its database: there a reader is canceled while a
//! write is waiting.

use crate::input::{
    clone_path, root_crates, source_root_crates, CrateData, CrateGraph, CrateId, FileId, RootFile,
    SourceRoot, SourceRootId,
};
use crate::syntax::{SyntaxNode, SyntaxTree, TextRange};
use relative_path::RelativePathBuf;
use std::collections::HashMap;
use vstd::prelude::*;

verus! {

broadcast use vstd::std_specs::hash::group_hash_axioms;

/// The answer to a reader whose revision is over.
#[derive(Clone, Copy, Debug, PartialEq, Eq, Structural, Hash)]
pub struct Canceled;

/// The runtime of a database that is kept by `salsa`. Nothing here looks
/// inside one.
#[verifier::external_type_specification]
#[verifier::external_body]
pub struct ExRuntime(salsa::Runtime);

/// `salsa::Runtime::is_current_revision_canceled`: whether a write is
/// waiting for the readers of the present revision to finish. Nothing is
/// claimed of the answer, which depends on what other threads do.
#[verifier::external_body]
fn is_current_revision_canceled(runtime: &salsa::Runtime) -> bool {
    runtime.is_current_revision_canceled()
}

/// What a reader makes of the cancellation signal: it gives up as soon as
/// the signal is set.
pub fn cancellation_outcome(canceled: bool) -> (r: Result<(), Canceled>)
    ensures
        r is Err <==> canceled,
{
    if canceled {
        Err(Canceled)
    } else {
        Ok(())
    }
}

/// Asks the runtime of a database that is kept by `salsa` whether the
/// reader has to give up: `Err` where the runtime says that the present
/// revision is canceled.
pub fn check_canceled(runtime: &salsa::Runtime) -> (r: Result<(), Canceled>) {
    cancellation_outcome(is_current_revision_canceled(runtime))
}

/// A place in a file.
#[derive(Clone, Copy, Debug)]
pub struct FilePosition {
    pub file_id: FileId,
    pub offset: u32,
}

/// A range of a file.
#[derive(Clone, Copy, Debug)]
pub struct FileRange {
    pub file_id: FileId,
    pub range: TextRange,
}

/// The number of a revision.
pub type Revision = u64;

struct Input<T> {
    value: T,
    changed_at: Revision,
}

struct TreeMemo {
    tree: SyntaxTree,
    computed_at: Revision,
    /// The text that the tree was stored for.
    text: Ghost<Seq<char>>,
}

struct CratesMemo {
    crates: Vec<CrateId>,
    computed_at: Revision,
}

/// A tree that the database holds for a file, with the text it was stored
/// for.
pub struct ParsedFile {
    pub text: Seq<char>,
    pub tree: Seq<SyntaxNode>,
}

/// The database as a value: the revision, the inputs, and the trees that
/// are still valid.
#[verifier::ext_equal]
pub struct DatabaseView {
    pub revision: nat,
    pub file_text: Map<FileId, Seq<char>>,
    pub file_relative_path: Map<FileId, RelativePathBuf>,
    pub file_source_root: Map<FileId, SourceRootId>,
    pub source_root: Map<SourceRootId, Seq<RootFile>>,
    pub local_roots: Option<Seq<SourceRootId>>,
    pub library_roots: Option<Seq<SourceRootId>>,
    pub crate_graph: Option<Seq<CrateData>>,
    pub source_file: Map<FileId, ParsedFile>,
    /// The crates that are held for a source root, where they are still
    /// those of the root.
    pub held_crates: Map<SourceRootId, Seq<CrateId>>,
}

impl DatabaseView {
    /// A tree is held only for the text that its file has now, and crates
    /// are held only as they follow from the source root and the crate graph
    /// as they are now.
    pub open spec fn wf(self) -> bool {
        &&& forall|f: FileId| #[trigger]
            self.source_file.contains_key(f) ==> self.file_text.contains_key(f)
                && self.source_file[f].text == self.file_text[f]
        &&& forall|id: SourceRootId| #[trigger]
            self.held_crates.contains_key(id) ==> self.source_root.contains_key(id)
                && self.crate_graph is Some && self.held_crates[id] == self.source_root_crates(id)
    }

    pub open spec fn empty() -> DatabaseView {
        DatabaseView {
            revision: 0,
            file_text: Map::empty(),
            file_relative_path: Map::empty(),
            file_source_root: Map::empty(),
            source_root: Map::empty(),
            local_roots: None,
            library_roots: None,
            crate_graph: None,
            source_file: Map::empty(),
            held_crates: Map::empty(),
        }
    }

    /// A new text for `file`: a new revision, in which no tree is held for
    /// `file`.
    pub open spec fn set_file_text(self, file: FileId, text: Seq<char>) -> DatabaseView {
        DatabaseView {
            revision: self.revision + 1,
            file_text: self.file_text.insert(file, text),
            source_file: self.source_file.remove(file),
            ..self
        }
    }

    pub open spec fn set_file_relative_path(self, file: FileId, path: RelativePathBuf) -> DatabaseView {
        DatabaseView {
            revision: self.revision + 1,
            file_relative_path: self.file_relative_path.insert(file, path),
            ..self
        }
    }

    pub open spec fn set_file_source_root(self, file: FileId, root: SourceRootId) -> DatabaseView {
        DatabaseView {
            revision: self.revision + 1,
            file_source_root: self.file_source_root.insert(file, root),
            ..self
        }
    }

    /// New files for the source root `id`: a new revision, in which no
    /// crates are held for `id`.
    pub open spec fn set_source_root(self, id: SourceRootId, root: Seq<RootFile>) -> DatabaseView {
        DatabaseView {
            revision: self.revision + 1,
            source_root: self.source_root.insert(id, root),
            held_crates: self.held_crates.remove(id),
            ..self
        }
    }

    pub open spec fn set_local_roots(self, roots: Seq<SourceRootId>) -> DatabaseView {
        DatabaseView { revision: self.revision + 1, local_roots: Some(roots), ..self }
    }

    pub open spec fn set_library_roots(self, roots: Seq<SourceRootId>) -> DatabaseView {
        DatabaseView { revision: self.revision + 1, library_roots: Some(roots), ..self }
    }

    /// A new crate graph: a new revision, in which no crates are held for
    /// any source root.
    pub open spec fn set_crate_graph(self, graph: Seq<CrateData>) -> DatabaseView {
        DatabaseView {
            revision: self.revision + 1,
            crate_graph: Some(graph),
            held_crates: Map::empty(),
            ..self
        }
    }

    /// The tree `tree` is stored for `file` and its present text. The
    /// revision stays.
    pub open spec fn set_source_file(self, file: FileId, tree: Seq<SyntaxNode>) -> DatabaseView {
        DatabaseView {
            source_file: self.source_file.insert(
                file,
                ParsedFile { text: self.file_text[file], tree },
            ),
            ..self
        }
    }

    /// The crates whose root file lies in the source root `id`.
    pub open spec fn source_root_crates(self, id: SourceRootId) -> Seq<CrateId> {
        root_crates(self.source_root[id], self.crate_graph->0)
    }

    /// The crates of the source root `id` are held from now on. Where they
    /// are held already nothing changes.
    pub open spec fn hold_crates(self, id: SourceRootId) -> DatabaseView {
        DatabaseView {
            held_crates: self.held_crates.insert(id, self.source_root_crates(id)),
            ..self
        }
    }

    /// Whether a reader that started in revision `started_at` is canceled:
    /// an input was written since.
    pub open spec fn is_canceled(self, started_at: Revision) -> bool {
        self.revision != started_at
    }
}

fn copy_roots(roots: &Vec<CrateId>) -> (r: Vec<CrateId>)
    ensures
        r@ == roots@,
{
    let mut r: Vec<CrateId> = Vec::new();
    let mut i: usize = 0;
    while i < roots.len()
        invariant
            i <= roots@.len(),
            r@ == roots@.take(i as int),
        decreases roots@.len() - i,
    {
        r.push(roots[i]);
        assert(r@ =~= roots@.take(i + 1));
        i += 1;
    }
    assert(roots@.take(i as int) =~= roots@);
    r
}

/// The inputs and what was derived from them.
pub struct Database {
    revision: Revision,
    file_text: HashMap<u32, Input<String>>,
    file_relative_path: HashMap<u32, Input<RelativePathBuf>>,
    file_source_root: HashMap<u32, Input<SourceRootId>>,
    source_root: HashMap<u32, Input<SourceRoot>>,
    local_roots: Option<Input<Vec<SourceRootId>>>,
    library_roots: Option<Input<Vec<SourceRootId>>>,
    crate_graph: Option<Input<CrateGraph>>,
    source_file: HashMap<u32, TreeMemo>,
    source_root_crates: HashMap<u32, CratesMemo>,
}

impl Database {
    /// Whether the tree held for `file` was stored after the last write to
    /// the text of `file`.
    closed spec fn tree_valid(&self, file: u32) -> bool {
        &&& self.source_file@.contains_key(file)
        &&& self.file_text@.contains_key(file)
        &&& self.source_file@[file].computed_at >= self.file_text@[file].changed_at
    }

    /// Whether the crates held for the source root `id` were derived after
    /// the last write to the root and to the crate graph.
    closed spec fn crates_valid(&self, id: u32) -> bool {
        &&& self.source_root_crates@.contains_key(id)
        &&& self.source_root@.contains_key(id)
        &&& self.crate_graph is Some
        &&& self.source_root_crates@[id].computed_at >= self.source_root@[id].changed_at
        &&& self.source_root_crates@[id].computed_at >= self.crate_graph->0.changed_at
    }

    /// No input and no derived value is newer than the revision; a tree that
    /// is valid was stored for the present text; crates that are valid are
    /// those of the present root and graph.
    pub closed spec fn wf(&self) -> bool {
        &&& forall|f: u32| #[trigger]
            self.file_text@.contains_key(f) ==> self.file_text@[f].changed_at <= self.revision
        &&& forall|id: u32| #[trigger]
            self.source_root@.contains_key(id) ==> self.source_root@[id].changed_at
                <= self.revision && self.source_root@[id].value.wf()
        &&& self.crate_graph matches Some(g) ==> g.changed_at <= self.revision
        &&& forall|f: u32| #[trigger]
            self.source_file@.contains_key(f) ==> self.source_file@[f].computed_at
                <= self.revision
        &&& forall|id: u32| #[trigger]
            self.source_root_crates@.contains_key(id) ==> self.source_root_crates@[id].computed_at
                <= self.revision
        &&& forall|f: u32| #[trigger]
            self.tree_valid(f) ==> self.source_file@[f].text@ == self.file_text@[f].value@
        &&& forall|id: u32| #[trigger]
            self.crates_valid(id) ==> self.source_root_crates@[id].crates@ == root_crates(
                self.source_root@[id].value@,
                self.crate_graph->0.value@,
            )
    }
}

impl View for Database {
    type V = DatabaseView;

    closed spec fn view(&self) -> DatabaseView {
        DatabaseView {
            revision: self.revision as nat,
            file_text: Map::new(
                |f: FileId| self.file_text@.contains_key(f.0),
                |f: FileId| self.file_text@[f.0].value@,
            ),
            file_relative_path: Map::new(
                |f: FileId| self.file_relative_path@.contains_key(f.0),
                |f: FileId| self.file_relative_path@[f.0].value,
            ),
            file_source_root: Map::new(
                |f: FileId| self.file_source_root@.contains_key(f.0),
                |f: FileId| self.file_source_root@[f.0].value,
            ),
            source_root: Map::new(
                |id: SourceRootId| self.source_root@.contains_key(id.0),
                |id: SourceRootId| self.source_root@[id.0].value@,
            ),
            local_roots: match self.local_roots {
                Some(roots) => Some(roots.value@),
                None => None,
            },
            library_roots: match self.library_roots {
                Some(roots) => Some(roots.value@),
                None => None,
            },
            crate_graph: match self.crate_graph {
                Some(graph) => Some(graph.value@),
                None => None,
            },
            source_file: Map::new(
                |f: FileId| self.tree_valid(f.0),
                |f: FileId|
                    ParsedFile {
                        text: self.source_file@[f.0].text@,
                        tree: self.source_file@[f.0].tree@,
                    },
            ),
            held_crates: Map::new(
                |id: SourceRootId| self.crates_valid(id.0),
                |id: SourceRootId| self.source_root_crates@[id.0].crates@,
            ),
        }
    }
}

impl Database {
    /// A database without inputs, in revision 0.
    pub fn new() -> (r: Database)
        ensures
            r.wf(),
            r@ == DatabaseView::empty(),
    {
        let r = Database {
            revision: 0,
            file_text: HashMap::new(),
            file_relative_path: HashMap::new(),
            file_source_root: HashMap::new(),
            source_root: HashMap::new(),
            local_roots: None,
            library_roots: None,
            crate_graph: None,
            source_file: HashMap::new(),
            source_root_crates: HashMap::new(),
        };
        assert(r@ =~= DatabaseView::empty());
        r
    }

    /// What a database that executable code holds is: see
    /// [`DatabaseView::wf`].
    pub proof fn lemma_view_wf(&self)
        requires
            self.wf(),
        ensures
            self@.wf(),
    {
        assert forall|f: FileId| #[trigger] self@.source_file.contains_key(f) implies self@.file_text.contains_key(
            f,
        ) && self@.source_file[f].text == self@.file_text[f] by {
            assert(self.tree_valid(f.0));
        }
    }

    /// The present revision.
    pub fn revision(&self) -> (r: Revision)
        ensures
            r == self@.revision,
    {
        self.revision
    }

    /// Whether a reader that started in revision `started_at` has to give
    /// up: `Err` as soon as an input was written since.
    pub fn check_canceled(&self, started_at: Revision) -> (r: Result<(), Canceled>)
        ensures
            r is Err <==> self@.is_canceled(started_at),
    {
        if self.revision != started_at {
            Err(Canceled)
        } else {
            Ok(())
        }
    }

    /// Runs `f`, which may give up with [`Canceled`], and hands its answer
    /// on as it is.
    pub fn catch_canceled<T, F: FnOnce(&Database) -> Result<T, Canceled>>(&self, f: F) -> (r: Result<
        T,
        Canceled,
    >)
        requires
            call_requires(f, (self,)),
        ensures
            call_ensures(f, (self,), r),
    {
        f(self)
    }

    /// Sets the text of `file`.
    pub fn set_file_text(&mut self, file: FileId, text: String)
        requires
            old(self).wf(),
            old(self)@.revision < u64::MAX,
        ensures
            final(self).wf(),
            final(self)@ == old(self)@.set_file_text(file, text@),
    {
        self.revision = self.revision + 1;
        self.file_text.insert(file.0, Input { value: text, changed_at: self.revision });
        proof {
            assert forall|f: u32| #[trigger] self.tree_valid(f) implies self.source_file@[f].text@
                == self.file_text@[f].value@ by {
                if f != file.0 {
                    assert(old(self).tree_valid(f));
                }
            }
            assert forall|id: u32| #[trigger] self.crates_valid(id) implies self.source_root_crates@[id].crates@
                == root_crates(self.source_root@[id].value@, self.crate_graph->0.value@) by {
                assert(old(self).crates_valid(id));
            }
            assert(self@.file_text =~= old(self)@.file_text.insert(file, text@));
            assert(self@.source_file =~= old(self)@.source_file.remove(file)) by {
                assert forall|f: FileId| self@.source_file.contains_key(f) <==> old(
                    self,
                )@.source_file.remove(file).contains_key(f) by {
                    if f != file {
                        assert(f.0 != file.0);
                        assert(self.tree_valid(f.0) == old(self).tree_valid(f.0));
                    }
                }
            }
            assert(self@ =~= old(self)@.set_file_text(file, text@));
        }
    }

    /// Whether a text was set for `file`.
    pub fn has_file_text(&self, file: FileId) -> (r: bool)
        ensures
            r == self@.file_text.contains_key(file),
    {
        self.file_text.contains_key(&file.0)
    }

    /// The text of `file`.
    pub fn file_text(&self, file: FileId) -> (r: &String)
        requires
            self@.file_text.contains_key(file),
        ensures
            r@ == self@.file_text[file],
    {
        match self.file_text.get(&file.0) {
            Some(input) => &input.value,
            None => vstd::pervasive::unreached(),
        }
    }

    /// Sets the path of `file`, relative to its source root.
    pub fn set_file_relative_path(&mut self, file: FileId, path: RelativePathBuf)
        requires
            old(self).wf(),
            old(self)@.revision < u64::MAX,
        ensures
            final(self).wf(),
            final(self)@ == old(self)@.set_file_relative_path(file, path),
    {
        self.revision = self.revision + 1;
        self.file_relative_path.insert(file.0, Input { value: path, changed_at: self.revision });
        proof {
            self.lemma_other_input(old(self));
            assert(self@.file_relative_path =~= old(self)@.file_relative_path.insert(file, path));
            assert(self@ =~= old(self)@.set_file_relative_path(file, path));
        }
    }

    /// The path of `file`, relative to its source root.
    pub fn file_relative_path(&self, file: FileId) -> (r: RelativePathBuf)
        requires
            self@.file_relative_path.contains_key(file),
        ensures
            r == self@.file_relative_path[file],
    {
        match self.file_relative_path.get(&file.0) {
            Some(input) => clone_path(&input.value),
            None => vstd::pervasive::unreached(),
        }
    }

    /// Sets the source root that `file` belongs to.
    pub fn set_file_source_root(&mut self, file: FileId, root: SourceRootId)
        requires
            old(self).wf(),
            old(self)@.revision < u64::MAX,
        ensures
            final(self).wf(),
            final(self)@ == old(self)@.set_file_source_root(file, root),
    {
        self.revision = self.revision + 1;
        self.file_source_root.insert(file.0, Input { value: root, changed_at: self.revision });
        proof {
            self.lemma_other_input(old(self));
            assert(self@.file_source_root =~= old(self)@.file_source_root.insert(file, root));
            assert(self@ =~= old(self)@.set_file_source_root(file, root));
        }
    }

    /// The source root that `file` belongs to.
    pub fn file_source_root(&self, file: FileId) -> (r: SourceRootId)
        requires
            self@.file_source_root.contains_key(file),
        ensures
            r == self@.file_source_root[file],
    {
        match self.file_source_root.get(&file.0) {
            Some(input) => input.value,
            None => vstd::pervasive::unreached(),
        }
    }

    /// Sets the files of the source root `id`.
    pub fn set_source_root(&mut self, id: SourceRootId, root: SourceRoot)
        requires
            old(self).wf(),
            old(self)@.revision < u64::MAX,
            root.wf(),
        ensures
            final(self).wf(),
            final(self)@ == old(self)@.set_source_root(id, root@),
    {
        self.revision = self.revision + 1;
        self.source_root.insert(id.0, Input { value: root, changed_at: self.revision });
        proof {
            assert forall|f: u32| #[trigger] self.tree_valid(f) implies self.source_file@[f].text@
                == self.file_text@[f].value@ by {
                assert(old(self).tree_valid(f));
            }
            assert forall|i: u32| #[trigger] self.crates_valid(i) implies self.source_root_crates@[i].crates@
                == root_crates(self.source_root@[i].value@, self.crate_graph->0.value@) by {
                if i != id.0 {
                    assert(old(self).crates_valid(i));
                }
            }
            assert forall|f: FileId| self@.source_file.contains_key(f) <==> old(
                self,
            )@.source_file.contains_key(f) by {
                assert(self.tree_valid(f.0) == old(self).tree_valid(f.0));
            }
            assert(self@.source_file =~= old(self)@.source_file);
            assert(self@.source_root =~= old(self)@.source_root.insert(id, root@));
            assert(self@ =~= old(self)@.set_source_root(id, root@));
        }
    }

    /// The files of the source root `id`.
    pub fn source_root(&self, id: SourceRootId) -> (r: &SourceRoot)
        requires
            self.wf(),
            self@.source_root.contains_key(id),
        ensures
            r@ == self@.source_root[id],
            r.wf(),
    {
        match self.source_root.get(&id.0) {
            Some(input) => &input.value,
            None => vstd::pervasive::unreached(),
        }
    }

    /// Sets the source roots of the workspace, whose files change often.
    pub fn set_local_roots(&mut self, roots: Vec<SourceRootId>)
        requires
            old(self).wf(),
            old(self)@.revision < u64::MAX,
        ensures
            final(self).wf(),
            final(self)@ == old(self)@.set_local_roots(roots@),
    {
        self.revision = self.revision + 1;
        self.local_roots = Some(Input { value: roots, changed_at: self.revision });
        proof {
            self.lemma_other_input(old(self));
            assert(self@ =~= old(self)@.set_local_roots(roots@));
        }
    }

    /// The source roots of the workspace.
    pub fn local_roots(&self) -> (r: &Vec<SourceRootId>)
        requires
            self@.local_roots is Some,
        ensures
            r@ == self@.local_roots->0,
    {
        match &self.local_roots {
            Some(input) => &input.value,
            None => vstd::pervasive::unreached(),
        }
    }

    /// Sets the source roots of libraries, whose files do not change.
    pub fn set_library_roots(&mut self, roots: Vec<SourceRootId>)
        requires
            old(self).wf(),
            old(self)@.revision < u64::MAX,
        ensures
            final(self).wf(),
            final(self)@ == old(self)@.set_library_roots(roots@),
    {
        self.revision = self.revision + 1;
        self.library_roots = Some(Input { value: roots, changed_at: self.revision });
        proof {
            self.lemma_other_input(old(self));
            assert(self@ =~= old(self)@.set_library_roots(roots@));
        }
    }

    /// The source roots of libraries.
    pub fn library_roots(&self) -> (r: &Vec<SourceRootId>)
        requires
            self@.library_roots is Some,
        ensures
            r@ == self@.library_roots->0,
    {
        match &self.library_roots {
            Some(input) => &input.value,
            None => vstd::pervasive::unreached(),
        }
    }

    /// Sets the crate graph.
    pub fn set_crate_graph(&mut self, graph: CrateGraph)
        requires
            old(self).wf(),
            old(self)@.revision < u64::MAX,
        ensures
            final(self).wf(),
            final(self)@ == old(self)@.set_crate_graph(graph@),
    {
        self.revision = self.revision + 1;
        self.crate_graph = Some(Input { value: graph, changed_at: self.revision });
        proof {
            assert forall|f: u32| #[trigger] self.tree_valid(f) implies self.source_file@[f].text@
                == self.file_text@[f].value@ by {
                assert(old(self).tree_valid(f));
            }
            assert forall|f: FileId| self@.source_file.contains_key(f) <==> old(
                self,
            )@.source_file.contains_key(f) by {
                assert(self.tree_valid(f.0) == old(self).tree_valid(f.0));
            }
            assert(self@.source_file =~= old(self)@.source_file);
            assert(self@ =~= old(self)@.set_crate_graph(graph@));
        }
    }

    /// The crate graph.
    pub fn crate_graph(&self) -> (r: &CrateGraph)
        requires
            self@.crate_graph is Some,
        ensures
            r@ == self@.crate_graph->0,
    {
        match &self.crate_graph {
            Some(input) => &input.value,
            None => vstd::pervasive::unreached(),
        }
    }

    /// A write to an input that nothing is derived from keeps what is
    /// derived.
    proof fn lemma_other_input(&self, before: &Database)
        requires
            before.wf(),
            self.revision == before.revision + 1,
            self.file_text == before.file_text,
            self.source_root == before.source_root,
            self.crate_graph == before.crate_graph,
            self.source_file == before.source_file,
            self.source_root_crates == before.source_root_crates,
        ensures
            self.wf(),
            self@.source_file == before@.source_file,
            self@.file_text == before@.file_text,
            self@.source_root == before@.source_root,
    {
        assert forall|f: u32| #[trigger] self.tree_valid(f) implies self.source_file@[f].text@
            == self.file_text@[f].value@ by {
            assert(before.tree_valid(f));
        }
        assert forall|i: u32| #[trigger] self.crates_valid(i) implies self.source_root_crates@[i].crates@
            == root_crates(self.source_root@[i].value@, self.crate_graph->0.value@) by {
            assert(before.crates_valid(i));
        }
        assert forall|f: FileId| self@.source_file.contains_key(f) <==> before@.source_file.contains_key(
            f,
        ) by {
            assert(self.tree_valid(f.0) == before.tree_valid(f.0));
        }
        assert(self@.source_file =~= before@.source_file);
        assert(self@.file_text =~= before@.file_text);
        assert(self@.source_root =~= before@.source_root);
    }

    /// Stores `tree` as the tree of `file` for its present text. This is no
    /// write to an input: the revision stays.
    pub fn set_source_file(&mut self, file: FileId, tree: SyntaxTree)
        requires
            old(self).wf(),
            old(self)@.file_text.contains_key(file),
        ensures
            final(self).wf(),
            final(self)@ == old(self)@.set_source_file(file, tree@),
    {
        let ghost text = self.file_text@[file.0].value@;
        self.source_file.insert(
            file.0,
            TreeMemo { tree, computed_at: self.revision, text: Ghost(text) },
        );
        proof {
            assert forall|f: u32| #[trigger] self.tree_valid(f) implies self.source_file@[f].text@
                == self.file_text@[f].value@ by {
                if f != file.0 {
                    assert(old(self).tree_valid(f));
                }
            }
            assert forall|i: u32| #[trigger] self.crates_valid(i) implies self.source_root_crates@[i].crates@
                == root_crates(self.source_root@[i].value@, self.crate_graph->0.value@) by {
                assert(old(self).crates_valid(i));
            }
            assert(self.tree_valid(file.0));
            assert forall|f: FileId| self@.source_file.contains_key(f) <==> old(
                self,
            )@.set_source_file(file, tree@).source_file.contains_key(f) by {
                if f != file {
                    assert(f.0 != file.0);
                    assert(self.tree_valid(f.0) == old(self).tree_valid(f.0));
                }
            }
            assert(self@.source_file =~= old(self)@.set_source_file(file, tree@).source_file);
            assert(self@.file_text =~= old(self)@.file_text);
            assert(self@ =~= old(self)@.set_source_file(file, tree@));
        }
    }

    /// The tree held for `file`, if one was stored since the text of `file`
    /// was last written.
    pub fn source_file(&self, file: FileId) -> (r: Option<&SyntaxTree>)
        requires
            self.wf(),
        ensures
            match r {
                Some(tree) => self@.source_file.contains_key(file) && self@.source_file[file].tree
                    == tree@ && self@.source_file[file].text == self@.file_text[file],
                None => !self@.source_file.contains_key(file),
            },
    {
        proof {
            self.lemma_view_wf();
        }
        let memo = match self.source_file.get(&file.0) {
            Some(memo) => memo,
            None => {
                return None;
            },
        };
        match self.file_text.get(&file.0) {
            Some(text) => {
                if memo.computed_at >= text.changed_at {
                    assert(self.tree_valid(file.0));
                    Some(&memo.tree)
                } else {
                    None
                }
            },
            None => None,
        }
    }

    /// The crates whose root file lies in the source root `id`. Where crates
    /// are held for the root they are handed out, and the database stays as
    /// it is. Else the crates are derived from the root and the crate graph,
    /// and are held from then on, until the root or the graph is written.
    pub fn source_root_crates(&mut self, id: SourceRootId) -> (r: Vec<CrateId>)
        requires
            old(self).wf(),
            old(self)@.source_root.contains_key(id),
            old(self)@.crate_graph is Some,
        ensures
            final(self).wf(),
            final(self)@ == old(self)@.hold_crates(id),
            old(self)@.held_crates.contains_key(id) ==> final(self)@ == old(self)@,
            r@ == old(self)@.source_root_crates(id),
    {
        proof {
            self.lemma_view_wf();
        }
        let revision = self.revision;
        let root = match self.source_root.get(&id.0) {
            Some(input) => input,
            None => vstd::pervasive::unreached(),
        };
        let graph = match &self.crate_graph {
            Some(input) => input,
            None => vstd::pervasive::unreached(),
        };
        if let Some(memo) = self.source_root_crates.get(&id.0) {
            if memo.computed_at >= root.changed_at && memo.computed_at >= graph.changed_at {
                assert(self.crates_valid(id.0));
                assert(self@.held_crates =~= self@.hold_crates(id).held_crates);
                return copy_roots(&memo.crates);
            }
        }
        assert(!self.crates_valid(id.0));
        let crates = source_root_crates(&root.value, &graph.value);
        let r = copy_roots(&crates);
        self.source_root_crates.insert(id.0, CratesMemo { crates, computed_at: revision });
        proof {
            assert forall|f: u32| #[trigger] self.tree_valid(f) implies self.source_file@[f].text@
                == self.file_text@[f].value@ by {
                assert(old(self).tree_valid(f));
            }
            assert forall|i: u32| #[trigger] self.crates_valid(i) implies self.source_root_crates@[i].crates@
                == root_crates(self.source_root@[i].value@, self.crate_graph->0.value@) by {
                if i != id.0 {
                    assert(old(self).crates_valid(i));
                }
            }
            assert forall|f: FileId| self@.source_file.contains_key(f) <==> old(
                self,
            )@.source_file.contains_key(f) by {
                assert(self.tree_valid(f.0) == old(self).tree_valid(f.0));
            }
            assert(self@.source_file =~= old(self)@.source_file);
            assert(self.crates_valid(id.0));
            assert forall|i: SourceRootId| self@.held_crates.contains_key(i) <==> old(
                self,
            )@.hold_crates(id).held_crates.contains_key(i) by {
                if i != id {
                    assert(i.0 != id.0);
                    assert(self.crates_valid(i.0) == old(self).crates_valid(i.0));
                }
            }
            assert(self@.held_crates =~= old(self)@.hold_crates(id).held_crates);
            assert(self@ =~= old(self)@.hold_crates(id));
        }
        r
    }
}

/// Every operation keeps the database well formed.
pub proof fn lemma_operations_keep_wf(
    db: DatabaseView,
    file: FileId,
    text: Seq<char>,
    path: RelativePathBuf,
    id: SourceRootId,
    root: Seq<RootFile>,
    roots: Seq<SourceRootId>,
    graph: Seq<CrateData>,
    tree: Seq<SyntaxNode>,
)
    requires
        db.wf(),
    ensures
        DatabaseView::empty().wf(),
        db.set_file_text(file, text).wf(),
        db.set_file_relative_path(file, path).wf(),
        db.set_file_source_root(file, id).wf(),
        db.set_source_root(id, root).wf(),
        db.set_local_roots(roots).wf(),
        db.set_library_roots(roots).wf(),
        db.set_crate_graph(graph).wf(),
        db.file_text.contains_key(file) ==> db.set_source_file(file, tree).wf(),
        db.source_root.contains_key(id) && db.crate_graph is Some ==> db.hold_crates(id).wf(),
{
}

/// Of two writes to the text of a file the second counts. After it no tree
/// is held for the file, whatever was stored in between, so the tree has to
/// be derived again; and the tree that is stored then is held for the second
/// text. The crates of a source root are those of the root as it was last
/// set.
pub proof fn lemma_second_write_wins(
    db: DatabaseView,
    file: FileId,
    first: Seq<char>,
    second: Seq<char>,
    stale: Seq<SyntaxNode>,
    tree: Seq<SyntaxNode>,
    id: SourceRootId,
    first_root: Seq<RootFile>,
    second_root: Seq<RootFile>,
)
    requires
        db.wf(),
    ensures
        ({
            let then = db.set_file_text(file, first).set_source_file(file, stale).set_file_text(
                file,
                second,
            );
            &&& then.wf()
            &&& then.revision == db.revision + 2
            &&& then.file_text[file] == second
            &&& !then.source_file.contains_key(file)
            &&& then.set_source_file(file, tree).source_file[file] == ParsedFile {
                text: second,
                tree,
            }
        }),
        ({
            let then = db.set_source_root(id, first_root).hold_crates(id).set_source_root(
                id,
                second_root,
            );
            &&& !then.held_crates.contains_key(id)
            &&& then.source_root_crates(id) == root_crates(second_root, db.crate_graph->0)
            &&& then.hold_crates(id).held_crates[id] == root_crates(
                second_root,
                db.crate_graph->0,
            )
        }),
{
}

/// A write to an input leaves alone what was derived from other inputs:
/// the tree of a file stays as it is when the text of another file or any
/// other input is written.
pub proof fn lemma_unrelated_write_keeps_tree(
    db: DatabaseView,
    file: FileId,
    other: FileId,
    text: Seq<char>,
    path: RelativePathBuf,
    id: SourceRootId,
    root: Seq<RootFile>,
    roots: Seq<SourceRootId>,
    graph: Seq<CrateData>,
)
    requires
        db.wf(),
        other != file,
        db.source_file.contains_key(file),
    ensures
        db.set_file_text(other, text).source_file.contains_key(file),
        db.set_file_text(other, text).source_file[file] == db.source_file[file],
        db.set_file_text(other, text).file_text[file] == db.file_text[file],
        db.set_file_relative_path(file, path).source_file == db.source_file,
        db.set_file_source_root(file, id).source_file == db.source_file,
        db.set_source_root(id, root).source_file == db.source_file,
        db.set_local_roots(roots).source_file == db.source_file,
        db.set_library_roots(roots).source_file == db.source_file,
        db.set_crate_graph(graph).source_file == db.source_file,
        db.hold_crates(id).source_file == db.source_file,
{
}

/// The crates that are held for a source root stay held when another
/// source root or any input but the crate graph is written. A write to the
/// root itself drops them, and a write to the crate graph drops the crates
/// of every root.
pub proof fn lemma_unrelated_write_keeps_crates(
    db: DatabaseView,
    id: SourceRootId,
    other: SourceRootId,
    file: FileId,
    text: Seq<char>,
    path: RelativePathBuf,
    root: Seq<RootFile>,
    roots: Seq<SourceRootId>,
    graph: Seq<CrateData>,
    tree: Seq<SyntaxNode>,
)
    requires
        db.wf(),
        other != id,
        db.held_crates.contains_key(id),
    ensures
        db.set_source_root(other, root).held_crates.contains_key(id),
        db.set_source_root(other, root).held_crates[id] == db.held_crates[id],
        db.set_file_text(file, text).held_crates == db.held_crates,
        db.set_file_relative_path(file, path).held_crates == db.held_crates,
        db.set_file_source_root(file, id).held_crates == db.held_crates,
        db.set_local_roots(roots).held_crates == db.held_crates,
        db.set_library_roots(roots).held_crates == db.held_crates,
        db.set_source_file(file, tree).held_crates == db.held_crates,
        db.hold_crates(id) == db,
        !db.set_source_root(id, root).held_crates.contains_key(id),
        !db.set_crate_graph(graph).held_crates.contains_key(id),
{
    assert(db.hold_crates(id).held_crates =~= db.held_crates);
}

/// A reader is canceled when an input was written since it started, and
/// only then: not while nothing is written, and not when a derived value is
/// stored.
pub proof fn lemma_canceled_by_writes_only(
    db: DatabaseView,
    started_at: Revision,
    file: FileId,
    text: Seq<char>,
    tree: Seq<SyntaxNode>,
)
    requires
        started_at == db.revision,
    ensures
        !db.is_canceled(started_at),
        !db.set_source_file(file, tree).is_canceled(started_at),
        forall|id: SourceRootId| !(#[trigger] db.hold_crates(id)).is_canceled(started_at),
        db.set_file_text(file, text).is_canceled(started_at),
        db.set_file_text(file, text).set_file_text(file, text).is_canceled(started_at),
{
}

} // verus!
