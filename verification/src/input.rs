//! What the host tells the database: files, source roots and the crate
//! graph.

use relative_path::RelativePathBuf;
use vstd::prelude::*;

verus! {

/// A relative path, held as the host gave it. Nothing here looks inside one.
#[verifier::external_type_specification]
#[verifier::external_body]
pub struct ExRelativePathBuf(RelativePathBuf);

/// `RelativePathBuf::clone`: the copy is the same path as the one that was
/// copied.
#[verifier::external_body]
pub(crate) fn clone_path(path: &RelativePathBuf) -> (r: RelativePathBuf)
    ensures
        r == *path,
{
    path.clone()
}

#[derive(Clone, Copy, Debug, PartialEq, Eq, Structural, Hash)]
pub struct FileId(pub u32);

#[derive(Clone, Copy, Debug, PartialEq, Eq, Structural, Hash)]
pub struct SourceRootId(pub u32);

#[derive(Clone, Copy, Debug, PartialEq, Eq, Structural, Hash)]
pub struct CrateId(pub u32);

/// A file of a source root, with its path relative to the root.
#[derive(Debug, PartialEq, Eq)]
pub struct RootFile {
    pub file_id: FileId,
    pub path: RelativePathBuf,
}

/// A group of files under one directory. No file occurs twice.
#[derive(Debug, PartialEq, Eq)]
pub struct SourceRoot {
    files: Vec<RootFile>,
}

impl View for SourceRoot {
    type V = Seq<RootFile>;

    closed spec fn view(&self) -> Seq<RootFile> {
        self.files@
    }
}

/// No file occurs twice in the list.
pub open spec fn distinct_files(files: Seq<RootFile>) -> bool {
    forall|i: int, j: int|
        0 <= i < j < files.len() ==> (#[trigger] files[i]).file_id != (#[trigger] files[j]).file_id
}

/// The index of `file_id` in the list, if it is there.
pub open spec fn position_of(files: Seq<RootFile>, file_id: FileId) -> Option<int>
    decreases files.len(),
{
    if files.len() == 0 {
        None
    } else if files.last().file_id == file_id {
        Some(files.len() - 1)
    } else {
        position_of(files.drop_last(), file_id)
    }
}

proof fn lemma_position_of(files: Seq<RootFile>, file_id: FileId)
    ensures
        match position_of(files, file_id) {
            Some(i) => 0 <= i < files.len() && files[i].file_id == file_id,
            None => forall|i: int| 0 <= i < files.len() ==> (#[trigger] files[i]).file_id != file_id,
        },
    decreases files.len(),
{
    if files.len() > 0 && files.last().file_id != file_id {
        lemma_position_of(files.drop_last(), file_id);
        assert forall|i: int| 0 <= i < files.len() - 1 implies files[i] == files.drop_last()[i] by {}
        if position_of(files.drop_last(), file_id) is None {
            assert forall|i: int| 0 <= i < files.len() implies (#[trigger] files[i]).file_id
                != file_id by {
                if i < files.len() - 1 {
                    assert(files.drop_last()[i].file_id != file_id);
                }
            }
        }
    }
}

impl SourceRoot {
    pub open spec fn wf(&self) -> bool {
        distinct_files(self@)
    }

    pub fn new() -> (r: SourceRoot)
        ensures
            r@ == Seq::<RootFile>::empty(),
            r.wf(),
    {
        SourceRoot { files: Vec::new() }
    }

    pub fn len(&self) -> (n: usize)
        ensures
            n == self@.len(),
    {
        self.files.len()
    }

    /// The `i`-th file.
    pub fn file(&self, i: usize) -> (r: FileId)
        requires
            i < self@.len(),
        ensures
            r == self@[i as int].file_id,
    {
        self.files[i].file_id
    }

    fn position(&self, file_id: FileId) -> (r: Option<usize>)
        ensures
            match r {
                Some(i) => position_of(self@, file_id) == Some(i as int),
                None => position_of(self@, file_id) is None,
            },
    {
        let mut i: usize = self.files.len();
        proof {
            assert(self@.take(i as int) =~= self@);
        }
        while i > 0
            invariant
                i <= self@.len(),
                position_of(self@, file_id) == position_of(self@.take(i as int), file_id),
            decreases i,
        {
            proof {
                assert(self@.take(i as int).drop_last() =~= self@.take(i - 1));
            }
            if self.files[i - 1].file_id == file_id {
                return Some(i - 1);
            }
            i -= 1;
        }
        None
    }

    /// The path of `file_id` in this root, if the file belongs to it.
    pub fn path(&self, file_id: FileId) -> (r: Option<RelativePathBuf>)
        ensures
            match position_of(self@, file_id) {
                Some(i) => r == Some(self@[i].path),
                None => r is None,
            },
    {
        proof {
            lemma_position_of(self@, file_id);
        }
        match self.position(file_id) {
            Some(i) => Some(clone_path(&self.files[i].path)),
            None => None,
        }
    }

    /// Puts `file_id` into the root under `path`. A file that is there
    /// already gets the new path and keeps its place.
    pub fn insert(&mut self, file_id: FileId, path: RelativePathBuf)
        requires
            old(self).wf(),
        ensures
            final(self).wf(),
            match position_of(old(self)@, file_id) {
                Some(i) => final(self)@ == old(self)@.update(i, RootFile { file_id, path }),
                None => final(self)@ == old(self)@.push(RootFile { file_id, path }),
            },
    {
        proof {
            lemma_position_of(self@, file_id);
        }
        match self.position(file_id) {
            Some(i) => {
                self.files.set(i, RootFile { file_id, path });
            },
            None => {
                self.files.push(RootFile { file_id, path });
            },
        }
    }
}

/// A dependency of one crate on another, under a name.
#[derive(Debug, PartialEq, Eq)]
pub struct Dependency {
    pub crate_id: CrateId,
    pub name: String,
}

/// A crate: its root file, if it has one, and what it depends on.
#[derive(Debug, PartialEq, Eq)]
pub struct CrateData {
    pub root_file: Option<FileId>,
    pub dependencies: Vec<Dependency>,
}

/// The crates and the dependencies between them. The id of a crate is its
/// index. Nothing keeps the dependencies from forming a cycle.
#[derive(Debug, PartialEq, Eq)]
pub struct CrateGraph {
    arena: Vec<CrateData>,
}

impl View for CrateGraph {
    type V = Seq<CrateData>;

    closed spec fn view(&self) -> Seq<CrateData> {
        self.arena@
    }
}

/// The first crate from `from` on whose root file is `file_id`.
pub open spec fn crate_for_root(crates: Seq<CrateData>, file_id: FileId, from: int) -> Option<
    CrateId,
>
    decreases crates.len() - from,
{
    if from < 0 || from >= crates.len() || from > u32::MAX {
        None
    } else if crates[from].root_file == Some(file_id) {
        Some(CrateId(from as u32))
    } else {
        crate_for_root(crates, file_id, from + 1)
    }
}

/// The crates whose root file is one of `files`, one for each such file, in
/// the order of the files.
pub open spec fn root_crates(files: Seq<RootFile>, crates: Seq<CrateData>) -> Seq<CrateId>
    decreases files.len(),
{
    if files.len() == 0 {
        Seq::empty()
    } else {
        match crate_for_root(crates, files.last().file_id, 0) {
            Some(id) => root_crates(files.drop_last(), crates).push(id),
            None => root_crates(files.drop_last(), crates),
        }
    }
}

impl CrateGraph {
    pub fn new() -> (r: CrateGraph)
        ensures
            r@ == Seq::<CrateData>::empty(),
    {
        CrateGraph { arena: Vec::new() }
    }

    pub fn len(&self) -> (n: usize)
        ensures
            n == self@.len(),
    {
        self.arena.len()
    }

    /// Adds a crate with the given root file and returns its id; `None`
    /// where the graph holds as many crates as an id can number.
    pub fn add_crate_root(&mut self, root_file: Option<FileId>) -> (r: Option<CrateId>)
        ensures
            match r {
                Some(id) => {
                    &&& id.0 == old(self)@.len()
                    &&& final(self)@.len() == old(self)@.len() + 1
                    &&& final(self)@[id.0 as int].root_file == root_file
                    &&& final(self)@[id.0 as int].dependencies@.len() == 0
                    &&& forall|i: int|
                        0 <= i < old(self)@.len() ==> final(self)@[i] == old(self)@[i]
                },
                None => old(self)@.len() > u32::MAX && final(self)@ == old(self)@,
            },
    {
        let n = self.arena.len();
        if n > u32::MAX as usize {
            return None;
        }
        self.arena.push(CrateData { root_file, dependencies: Vec::new() });
        Some(CrateId(n as u32))
    }

    /// Makes `from` depend on `to` under `name`.
    pub fn add_dep(&mut self, from: CrateId, name: String, to: CrateId)
        requires
            from.0 < old(self)@.len(),
        ensures
            final(self)@.len() == old(self)@.len(),
            final(self)@[from.0 as int].root_file == old(self)@[from.0 as int].root_file,
            final(self)@[from.0 as int].dependencies@ == old(self)@[from.0 as int].dependencies@.push(
                Dependency { crate_id: to, name },
            ),
            forall|i: int|
                0 <= i < old(self)@.len() && i != from.0 ==> final(self)@[i] == old(self)@[i],
    {
        self.arena[from.0 as usize].dependencies.push(Dependency { crate_id: to, name });
    }

    /// The root file of a crate.
    pub fn crate_root(&self, crate_id: CrateId) -> (r: Option<FileId>)
        requires
            crate_id.0 < self@.len(),
        ensures
            r == self@[crate_id.0 as int].root_file,
    {
        self.arena[crate_id.0 as usize].root_file
    }

    /// The dependencies of a crate.
    pub fn dependencies(&self, crate_id: CrateId) -> (r: &Vec<Dependency>)
        requires
            crate_id.0 < self@.len(),
        ensures
            *r == self@[crate_id.0 as int].dependencies,
    {
        &self.arena[crate_id.0 as usize].dependencies
    }

    /// The crate whose root file is `file_id`; the first, where several
    /// crates share a root file.
    pub fn crate_id_for_crate_root(&self, file_id: FileId) -> (r: Option<CrateId>)
        ensures
            r == crate_for_root(self@, file_id, 0),
    {
        let mut i: usize = 0;
        while i < self.arena.len() && i <= u32::MAX as usize
            invariant
                i <= self@.len(),
                crate_for_root(self@, file_id, i as int) == crate_for_root(self@, file_id, 0),
            decreases self@.len() - i,
        {
            match self.arena[i].root_file {
                Some(f) => {
                    if f == file_id {
                        return Some(CrateId(i as u32));
                    }
                },
                None => {},
            }
            i += 1;
        }
        None
    }
}

/// The crates whose root file lies in `root`: for each file of the root, in
/// order, the crate that has it as its root file, if there is one.
pub fn source_root_crates(root: &SourceRoot, graph: &CrateGraph) -> (r: Vec<CrateId>)
    ensures
        r@ == root_crates(root@, graph@),
{
    let mut res: Vec<CrateId> = Vec::new();
    let mut i: usize = 0;
    proof {
        assert(root@.take(0) =~= Seq::<RootFile>::empty());
    }
    while i < root.len()
        invariant
            i <= root@.len(),
            res@ == root_crates(root@.take(i as int), graph@),
        decreases root@.len() - i,
    {
        proof {
            assert(root@.take(i + 1).drop_last() =~= root@.take(i as int));
        }
        if let Some(id) = graph.crate_id_for_crate_root(root.file(i)) {
            res.push(id);
        }
        i += 1;
    }
    proof {
        assert(root@.take(i as int) =~= root@);
    }
    res
}

} // verus!
