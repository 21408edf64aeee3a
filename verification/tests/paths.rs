use analysis_core::import::{Crate, ImportItemMap, ImportResolver};
use analysis_core::input::CrateId;
use analysis_core::path::{fmt_path, Name, Path, PathKind, PathSegment};

fn path(kind: PathKind, segments: &[&str]) -> Path {
    Path {
        kind,
        segments: segments
            .iter()
            .map(|s| PathSegment { name: Name::new(s.to_string()) })
            .collect(),
    }
}

fn text(path: &Path) -> String {
    let mut buf = String::from(">");
    fmt_path(path, &mut buf);
    buf
}

#[test]
fn paths_are_written_with_their_kind() {
    assert_eq!(text(&path(PathKind::Plain, &["std", "fmt", "Debug"])), ">std::fmt::Debug");
    assert_eq!(text(&path(PathKind::Crate, &["a"])), ">crate::a");
    assert_eq!(text(&path(PathKind::Self_, &["a", "b"])), ">self::a::b");
    assert_eq!(text(&path(PathKind::Super, &["a"])), ">super::a");
    assert_eq!(text(&path(PathKind::Abs, &["a", "b"])), ">a::b");
    assert_eq!(text(&path(PathKind::Plain, &[])), ">");
    assert_eq!(text(&path(PathKind::Crate, &[])), ">crate::");
}

#[test]
fn a_plain_path_of_one_segment_is_an_identifier() {
    assert_eq!(path(PathKind::Plain, &["a"]).as_ident().map(Name::as_str), Some("a"));
    assert!(path(PathKind::Plain, &["a", "b"]).as_ident().is_none());
    assert!(path(PathKind::Plain, &[]).as_ident().is_none());
    assert!(path(PathKind::Crate, &["a"]).as_ident().is_none());
    assert!(path(PathKind::Abs, &["a"]).as_ident().is_none());
}

#[test]
fn a_copy_of_a_path_reads_the_same() {
    let first = path(PathKind::Super, &["a", "b", "c"]);
    let copy = first.duplicate();
    assert_eq!(copy.kind, PathKind::Super);
    assert_eq!(text(&copy), text(&first));
    assert_eq!(copy.segments.len(), 3);
    assert_eq!(Name::new("n".to_string()).duplicate().as_str(), "n");
}

fn entries(items: &[(String, Path)]) -> Vec<(String, String)> {
    items.iter().map(|(name, path)| (name.clone(), text(path))).collect()
}

#[test]
fn every_crate_can_import_the_two_placeholders() {
    let expected = vec![
        ("DummyDebug".to_string(), ">std::fmt::Debug".to_string()),
        ("DummyDisplay".to_string(), ">std::fmt::Display".to_string()),
    ];
    let map = ImportItemMap::import_item_map_query(Crate { crate_id: CrateId(7) });
    assert_eq!(entries(map.entries()), expected);
    assert_eq!(map.entries()[0].1.kind, PathKind::Plain);
}

fn resolved(name: &str) -> Vec<(String, String)> {
    let resolver = ImportResolver::new(Crate { crate_id: CrateId(1) });
    entries(&resolver.resolve_name(&Name::new(name.to_string())))
}

#[test]
fn a_name_resolves_to_the_paths_that_end_in_it() {
    assert_eq!(
        resolved("Debug"),
        vec![("DummyDebug".to_string(), ">std::fmt::Debug".to_string())]
    );
    assert_eq!(
        resolved("Display"),
        vec![("DummyDisplay".to_string(), ">std::fmt::Display".to_string())]
    );
}

#[test]
fn a_name_that_ends_no_path_resolves_to_nothing() {
    assert!(resolved("other").is_empty());
    assert!(resolved("").is_empty());
    // A segment in the middle of a path and the name of an entry do not
    // count, nor does a part of the last segment.
    assert!(resolved("fmt").is_empty());
    assert!(resolved("std").is_empty());
    assert!(resolved("DummyDebug").is_empty());
    assert!(resolved("Deb").is_empty());
    assert!(resolved("debug").is_empty());
}

#[test]
fn paths_end_in_their_last_segment() {
    let name = |text: &str| Name::new(text.to_string());
    assert!(path(PathKind::Plain, &["a", "b"]).ends_in(&name("b")));
    assert!(!path(PathKind::Plain, &["a", "b"]).ends_in(&name("a")));
    assert!(path(PathKind::Crate, &["b"]).ends_in(&name("b")));
    assert!(!path(PathKind::Plain, &[]).ends_in(&name("")));
    assert!(name("x").same(&name("x")));
    assert!(!name("x").same(&name("y")));
}
