//! Names that could be imported into a crate.

use crate::input::CrateId;
use crate::path::{Name, Path, PathKind, PathSegment, PathView};
use vstd::prelude::*;

verus! {

/// A crate as the resolvers see it.
#[derive(Clone, Copy, Debug, PartialEq, Eq, Structural, Hash)]
pub struct Crate {
    pub crate_id: CrateId,
}

/// Finds the paths under which a name could be imported into a crate: the
/// paths of the import map of the crate that end in the name.
#[derive(Clone, Copy, Debug)]
pub struct ImportResolver {
    krate: Crate,
}

/// The names that a crate could import, each with its full path.
#[derive(Debug)]
pub struct ImportItemMap {
    map: Vec<(String, Path)>,
}

/// The names and paths that a list of entries stands for.
pub open spec fn items_view(items: Seq<(String, Path)>) -> Seq<(Seq<char>, PathView)> {
    items.map_values(|e: (String, Path)| (e.0@, e.1@))
}

impl View for ImportItemMap {
    type V = Seq<(Seq<char>, PathView)>;

    closed spec fn view(&self) -> Seq<(Seq<char>, PathView)> {
        items_view(self.map@)
    }
}

/// The plain path `std::fmt::<last>`.
pub open spec fn std_fmt_path(last: Seq<char>) -> PathView {
    PathView { kind: PathKind::Plain, segments: seq!["std"@, "fmt"@, last] }
}

/// What every crate can import: `DummyDebug`, which stands for
/// `std::fmt::Debug`, and `DummyDisplay`, which stands for
/// `std::fmt::Display`.
pub open spec fn import_items() -> Seq<(Seq<char>, PathView)> {
    seq![
        ("DummyDebug"@, std_fmt_path("Debug"@)),
        ("DummyDisplay"@, std_fmt_path("Display"@)),
    ]
}

/// The entries of `items` whose path ends in the segment `name`, in the
/// order of `items`.
pub open spec fn matching_items(items: Seq<(Seq<char>, PathView)>, name: Seq<char>) -> Seq<
    (Seq<char>, PathView),
> {
    items.filter(|e: (Seq<char>, PathView)| e.1.ends_in(name))
}

/// The matching entries of a list that is one entry longer: the entry is
/// added where it matches.
pub proof fn lemma_matching_items_push(
    items: Seq<(Seq<char>, PathView)>,
    last: (Seq<char>, PathView),
    name: Seq<char>,
)
    ensures
        matching_items(Seq::empty(), name) == Seq::<(Seq<char>, PathView)>::empty(),
        matching_items(items.push(last), name) == if last.1.ends_in(name) {
            matching_items(items, name).push(last)
        } else {
            matching_items(items, name)
        },
{
    reveal(Seq::filter);
    assert(items.push(last).drop_last() =~= items);
}

/// What resolves for a name: `Debug` resolves to the first entry, `Display`
/// to the second, and every other name to nothing.
pub proof fn lemma_matching_imports(name: Seq<char>)
    ensures
        matching_items(import_items(), name) == if name == "Debug"@ {
            seq![import_items()[0]]
        } else if name == "Display"@ {
            seq![import_items()[1]]
        } else {
            Seq::empty()
        },
{
    let all = import_items();
    let none: Seq<(Seq<char>, PathView)> = Seq::empty();
    lemma_matching_items_push(none, all[0], name);
    lemma_matching_items_push(none.push(all[0]), all[1], name);
    assert(none.push(all[0]).push(all[1]) =~= all);
    assert(none.push(all[0]) =~= seq![all[0]]);
    assert(none.push(all[1]) =~= seq![all[1]]);
    assert(all[0].1.segments.last() == "Debug"@);
    assert(all[1].1.segments.last() == "Display"@);
    reveal_strlit("Debug");
    reveal_strlit("Display");
    assert("Debug"@.len() == 5);
    assert("Display"@.len() == 7);
}

fn std_fmt(last: &str) -> (r: Path)
    ensures
        r@ == std_fmt_path(last@),
{
    let mut segments: Vec<PathSegment> = Vec::new();
    segments.push(PathSegment { name: Name::new("std".to_owned()) });
    segments.push(PathSegment { name: Name::new("fmt".to_owned()) });
    segments.push(PathSegment { name: Name::new(last.to_owned()) });
    let r = Path { kind: PathKind::Plain, segments };
    assert(r@ =~~= std_fmt_path(last@));
    r
}

impl ImportResolver {
    pub fn new(krate: Crate) -> (r: ImportResolver)
        ensures
            r.krate() == krate,
    {
        ImportResolver { krate }
    }

    /// The crate whose imports are resolved.
    pub closed spec fn krate(&self) -> Crate {
        self.krate
    }

    /// The names that could be imported for `name`, each with its full
    /// path: of what the crate can import, the entries whose path ends in
    /// `name`, in the order of the import map.
    pub fn resolve_name(&self, name: &Name) -> (r: Vec<(String, Path)>)
        ensures
            items_view(r@) == matching_items(import_items(), name@),
    {
        let import_map = ImportItemMap::import_item_map_query(self.krate);
        let entries = import_map.entries();
        let ghost all = items_view(entries@);
        let mut res: Vec<(String, Path)> = Vec::new();
        let mut i: usize = 0;
        proof {
            lemma_matching_items_push(Seq::empty(), all[0], name@);
            assert(all.take(0) =~= Seq::empty());
            assert(items_view(res@) =~= Seq::empty());
        }
        while i < entries.len()
            invariant
                i <= entries@.len(),
                all == items_view(entries@),
                all == import_items(),
                items_view(res@) == matching_items(all.take(i as int), name@),
            decreases entries@.len() - i,
        {
            let ghost before = items_view(res@);
            proof {
                lemma_matching_items_push(all.take(i as int), all[i as int], name@);
                assert(all.take(i + 1) =~= all.take(i as int).push(all[i as int]));
                assert(all[i as int] == (entries@[i as int].0@, entries@[i as int].1@));
            }
            if entries[i].1.ends_in(name) {
                let entry = (entries[i].0.clone(), entries[i].1.duplicate());
                res.push(entry);
                assert(items_view(res@) =~= before.push(all[i as int]));
            }
            i += 1;
        }
        assert(all.take(i as int) =~= all);
        res
    }
}

impl ImportItemMap {
    /// The names that `krate` could import.
    pub fn import_item_map_query(krate: Crate) -> (r: ImportItemMap)
        ensures
            r@ == import_items(),
    {
        let mut map: Vec<(String, Path)> = Vec::new();
        map.push(("DummyDebug".to_owned(), std_fmt("Debug")));
        map.push(("DummyDisplay".to_owned(), std_fmt("Display")));
        assert(items_view(map@) =~~= import_items());
        ImportItemMap { map }
    }

    /// The entries of the map, in order.
    pub fn entries(&self) -> (r: &Vec<(String, Path)>)
        ensures
            items_view(r@) == self@,
    {
        &self.map
    }
}

} // verus!
