use ithos::path::{Path, PathBuf};

fn example_path() -> Path {
    Path::new("/foo/bar/baz").unwrap()
}

#[test]
fn pathbuf_inits_to_root() {
    assert_eq!(PathBuf::new().as_path(), Path::root());
}

#[test]
fn pathbuf_push() {
    let mut pathbuf = PathBuf::new();
    pathbuf.push("foo");
    pathbuf.push("bar");
    pathbuf.push("baz");

    assert_eq!(pathbuf.as_path(), example_path());
}

#[test]
fn path_parsing() {
    // Absolute paths are ok
    assert!(Path::new("/").is_some());
    assert!(Path::new("/foo").is_some());
    assert!(Path::new("/foo/bar").is_some());

    // Empty paths are not ok
    assert!(Path::new("").is_none());

    // Relative paths are not ok
    assert!(Path::new("../foo").is_none());
}

#[test]
fn path_parent() {
    assert_eq!(Path::root().parent(), None);
    assert_eq!(Path::new("/foo").unwrap().parent().unwrap(), Path::root());
    assert_eq!(
        Path::new("/foo/bar").unwrap().parent().unwrap(),
        Path::new("/foo").unwrap()
    );
}

#[test]
fn path_entry_name() {
    assert_eq!(example_path().entry_name().unwrap(), "baz");
}

#[test]
fn root_components() {
    assert!(Path::root().components().is_empty());
}

#[test]
fn path_components() {
    assert_eq!(example_path().components(), vec!["foo", "bar", "baz"])
}

#[test]
fn path_rejects_empty_components() {
    assert!(Path::new("//").is_none());
    assert!(Path::new("/foo//bar").is_none());
    assert!(Path::new("/foo/").is_none());
}

#[test]
fn pushed_path_equals_parsed_path() {
    let mut pathbuf = PathBuf::new();
    pathbuf.push("a");
    pathbuf.push("b");
    assert_eq!(pathbuf.as_path(), Path::new("/a/b").unwrap());
}

#[test]
fn root_boundaries() {
    let root = Path::root();
    assert_eq!(root.parent(), None);
    assert_eq!(root.entry_name().unwrap(), "");
    assert!(root.components().is_empty());
}
