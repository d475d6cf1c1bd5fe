use mine::mapper::{split_path, Mapper};

#[test]
fn lib_exists_after_insert() {
    let mut m = Mapper::new();
    m.insert("foo");

    let entries = m.list("");
    assert_eq!(entries.is_some(), true);
    assert!(entries.unwrap().iter().any(|e| e == "foo"));
}

#[test]
fn lib_gone_after_remove() {
    let mut m = Mapper::new();
    m.insert("foo");
    m.remove("foo");

    let entries = m.list("");
    assert_eq!(entries.is_some(), true);
    assert!(entries.unwrap().is_empty());
}

#[test]
fn mod_exists_after_insert() {
    let mut m = Mapper::new();
    m.insert("foo");

    let entries = m.list("");
    assert_eq!(entries.is_some(), true);
    assert!(entries.unwrap().iter().any(|e| e == "foo"));
}

#[test]
fn mod_gone_after_remove() {
    let mut m = Mapper::new();
    m.insert("foo");
    m.remove("foo");

    let entries = m.list("");
    assert_eq!(entries.is_some(), true);
    assert!(entries.unwrap().is_empty());
}

#[test]
fn split_path_drops_empty_segments() {
    assert_eq!(split_path("alice/email"), vec!["alice", "email"]);
    assert_eq!(split_path("/alice//email/"), vec!["alice", "email"]);
    assert_eq!(split_path(""), Vec::<String>::new());
    assert_eq!(split_path("///"), Vec::<String>::new());
    assert_eq!(split_path("single"), vec!["single"]);
}

#[test]
fn insert_returns_long_alphanumeric_name() {
    let mut m = Mapper::new();
    let name = m.insert("foo");
    assert_eq!(name.chars().count(), 100);
    assert!(name.chars().all(|c| c.is_ascii_alphanumeric()));
}

#[test]
fn two_inserted_names_differ() {
    let mut m = Mapper::new();
    let a = m.insert("foo");
    let b = m.insert("bar");
    assert_ne!(a, b);
}

#[test]
fn find_returns_inserted_name() {
    let mut m = Mapper::new();
    let name = m.insert("alice/email");
    assert_eq!(m.find("alice/email"), Some(name));
    assert_eq!(m.find("alice"), None);
    assert_eq!(m.find("alice/email/extra"), None);
}

#[test]
fn find_treats_separators_loosely() {
    let mut m = Mapper::new();
    let name = m.insert("alice/email");
    assert_eq!(m.find("/alice/email/"), Some(name));
}

#[test]
fn remove_keeps_descendants() {
    let mut m = Mapper::new();
    m.insert("foo/bar");
    let deep = m.insert("foo/bar/baz");
    m.remove("foo/bar");
    assert_eq!(m.find("foo/bar"), None);
    assert_eq!(m.find("foo/bar/baz"), Some(deep));
    let kids = m.list("foo").unwrap();
    assert_eq!(kids, vec!["bar"]);
}

#[test]
fn list_missing_node_is_none() {
    let mut m = Mapper::new();
    m.insert("foo/bar");
    assert!(m.list("nope").is_none());
    assert!(m.list("foo/bar/baz").is_none());
    assert_eq!(m.list("foo/bar").unwrap(), Vec::<String>::new());
}
