//! Names and paths, as the resolvers hand them out.

use vstd::prelude::*;
use vstd::string::StringExecFns;

verus! {

/// An identifier.
#[derive(Debug)]
pub struct Name {
    text: String,
}

impl View for Name {
    type V = Seq<char>;

    closed spec fn view(&self) -> Seq<char> {
        self.text@
    }
}

impl Name {
    pub fn new(text: String) -> (r: Name)
        ensures
            r@ == text@,
    {
        Name { text }
    }

    pub fn as_str(&self) -> (r: &str)
        ensures
            r@ == self@,
    {
        self.text.as_str()
    }

    /// Whether the two names read the same.
    pub fn same(&self, other: &Name) -> (r: bool)
        ensures
            r == (self@ == other@),
    {
        self.text == other.text
    }

    /// A copy of the name.
    pub fn duplicate(&self) -> (r: Name)
        ensures
            r@ == self@,
    {
        Name { text: self.text.clone() }
    }
}

/// Where a path starts.
#[derive(Clone, Copy, Debug, PartialEq, Eq, Structural, Hash)]
pub enum PathKind {
    Plain,
    Self_,
    Super,
    Crate,
    /// An absolute path, which starts with `::`.
    Abs,
}

#[derive(Debug)]
pub struct PathSegment {
    pub name: Name,
}

/// A path: its kind and the names of its segments.
#[derive(Debug)]
pub struct Path {
    pub kind: PathKind,
    pub segments: Vec<PathSegment>,
}

/// A path as a value: its kind and the text of each segment.
#[verifier::ext_equal]
pub struct PathView {
    pub kind: PathKind,
    pub segments: Seq<Seq<char>>,
}

/// The segment names that a list of segments stands for.
pub open spec fn segment_names(segments: Seq<PathSegment>) -> Seq<Seq<char>> {
    segments.map_values(|s: PathSegment| s.name@)
}

impl View for Path {
    type V = PathView;

    open spec fn view(&self) -> PathView {
        PathView { kind: self.kind, segments: segment_names(self.segments@) }
    }
}

/// What a path starts with, by its kind.
pub open spec fn kind_prefix(kind: PathKind) -> Seq<char> {
    match kind {
        PathKind::Crate => "crate::"@,
        PathKind::Self_ => "self::"@,
        PathKind::Super => "super::"@,
        _ => Seq::empty(),
    }
}

/// The segments, with `::` between each two of them.
pub open spec fn joined(segments: Seq<Seq<char>>) -> Seq<char>
    decreases segments.len(),
{
    if segments.len() == 0 {
        Seq::empty()
    } else if segments.len() == 1 {
        segments[0]
    } else {
        joined(segments.drop_last()) + "::"@ + segments.last()
    }
}

/// The text of a path: `crate::`, `self::` or `super::` where the path is of
/// that kind, then the segments with `::` between them.
pub open spec fn path_text(path: PathView) -> Seq<char> {
    kind_prefix(path.kind) + joined(path.segments)
}

impl PathView {
    /// Whether the last segment of the path is `name`.
    pub open spec fn ends_in(self, name: Seq<char>) -> bool {
        self.segments.len() > 0 && self.segments.last() == name
    }

    /// The name that a path consists of: a plain path of one segment is an
    /// identifier, and a plain path without segments is none.
    pub open spec fn as_ident(self) -> Option<Seq<char>> {
        if self.kind != PathKind::Plain || self.segments.len() != 1 {
            None
        } else {
            Some(self.segments[0])
        }
    }
}

impl Path {
    /// The path as a single identifier, if it is one.
    pub fn as_ident(&self) -> (r: Option<&Name>)
        ensures
            match r {
                Some(name) => self@.as_ident() == Some(name@),
                None => self@.as_ident() is None,
            },
    {
        if self.kind != PathKind::Plain || self.segments.len() > 1 {
            return None;
        }
        if self.segments.len() == 0 {
            None
        } else {
            Some(&self.segments[0].name)
        }
    }

    /// Whether the last segment of the path is `name`.
    pub fn ends_in(&self, name: &Name) -> (r: bool)
        ensures
            r == self@.ends_in(name@),
    {
        let n = self.segments.len();
        if n == 0 {
            false
        } else {
            assert(segment_names(self.segments@).last() == self.segments@[n - 1].name@);
            self.segments[n - 1].name.same(name)
        }
    }

    /// A copy of the path.
    pub fn duplicate(&self) -> (r: Path)
        ensures
            r@ == self@,
    {
        let mut segments: Vec<PathSegment> = Vec::new();
        let mut i: usize = 0;
        while i < self.segments.len()
            invariant
                i <= self.segments.len(),
                segments@.len() == i,
                segment_names(segments@) == segment_names(self.segments@).take(i as int),
            decreases self.segments.len() - i,
        {
            let ghost before = segments@;
            segments.push(PathSegment { name: self.segments[i].name.duplicate() });
            i += 1;
            assert forall|k: int| 0 <= k < i implies segment_names(segments@)[k] == segment_names(
                self.segments@,
            )[k] by {
                if k < i - 1 {
                    assert(segment_names(before)[k] == segment_names(self.segments@).take(i - 1)[k]);
                }
            }
            assert(segment_names(segments@) =~= segment_names(self.segments@).take(i as int));
        }
        assert(segment_names(self.segments@).take(i as int) =~= segment_names(self.segments@));
        Path { kind: self.kind, segments }
    }
}

/// Appends the text of `path` to `buf`.
pub fn fmt_path(path: &Path, buf: &mut String)
    ensures
        final(buf)@ == old(buf)@ + path_text(path@),
{
    match path.kind {
        PathKind::Crate => buf.append("crate::"),
        PathKind::Self_ => buf.append("self::"),
        PathKind::Super => buf.append("super::"),
        _ => {},
    }
    let ghost names = segment_names(path.segments@);
    let ghost start = buf@;
    assert(buf@ =~= old(buf)@ + kind_prefix(path.kind));
    assert(names.take(0) =~= Seq::<Seq<char>>::empty());
    let mut i: usize = 0;
    while i < path.segments.len()
        invariant
            i <= path.segments.len(),
            names == segment_names(path.segments@),
            buf@ == start + joined(names.take(i as int)),
        decreases path.segments.len() - i,
    {
        if i > 0 {
            buf.append("::");
        }
        buf.append(path.segments[i].name.as_str());
        proof {
            let next = names.take(i + 1);
            assert(next.drop_last() =~= names.take(i as int));
            assert(next.last() == names[i as int]);
            assert(buf@ =~= start + joined(next));
        }
        i += 1;
    }
    assert(names.take(i as int) =~= names);
    assert(buf@ =~= old(buf)@ + path_text(path@));
}

} // verus!
