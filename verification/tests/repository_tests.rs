use mine::errors::Error;
use mine::repository::Repository;

/// The disk as the surrounding binary drives it: one file per opaque name.
struct MemDisk {
    files: Vec<(String, Vec<u8>)>,
}

impl MemDisk {
    fn new() -> MemDisk {
        MemDisk { files: Vec::new() }
    }

    fn write(&mut self, name: &str, content: &[u8]) {
        for f in self.files.iter_mut() {
            if f.0 == name {
                f.1 = content.to_vec();
                return;
            }
        }
        self.files.push((name.to_string(), content.to_vec()));
    }

    fn read(&self, name: &str) -> Option<Vec<u8>> {
        self.files.iter().find(|f| f.0 == name).map(|f| f.1.clone())
    }

    fn remove(&mut self, name: &str) {
        self.files.retain(|f| f.0 != name);
    }

    fn count(&self) -> usize {
        self.files.len()
    }
}

fn store(repo: &mut Repository, disk: &mut MemDisk, path: &str, content: &[u8]) {
    let name = repo.insert(path);
    disk.write(&name, content);
}

fn fetch(repo: &Repository, disk: &MemDisk, path: &str) -> Result<Vec<u8>, Error> {
    let name = repo.get(path)?;
    disk.read(&name).ok_or(Error::IoFailure)
}

fn erase(repo: &mut Repository, disk: &mut MemDisk, path: &str) -> Result<(), Error> {
    let name = repo.delete(path)?;
    disk.remove(&name);
    Ok(())
}

#[test]
fn insert_then_get_returns_content() {
    let mut repo = Repository::new();
    let mut disk = MemDisk::new();
    store(&mut repo, &mut disk, "alice/email", b"hunter2");
    assert_eq!(fetch(&repo, &disk, "alice/email").unwrap(), b"hunter2");
}

#[test]
fn get_unknown_path_is_not_found() {
    let repo = Repository::new();
    let disk = MemDisk::new();
    assert_eq!(fetch(&repo, &disk, "nope"), Err(Error::NotFound));
}

#[test]
fn delete_then_get_is_not_found() {
    let mut repo = Repository::new();
    let mut disk = MemDisk::new();
    store(&mut repo, &mut disk, "alice/email", b"hunter2");
    erase(&mut repo, &mut disk, "alice/email").unwrap();
    assert_eq!(fetch(&repo, &disk, "alice/email"), Err(Error::NotFound));
    assert_eq!(disk.count(), 0);
}

#[test]
fn delete_unknown_path_is_not_found() {
    let mut repo = Repository::new();
    assert_eq!(repo.delete("nope"), Err(Error::NotFound));
}

#[test]
fn reinsert_overwrites_in_place() {
    let mut repo = Repository::new();
    let mut disk = MemDisk::new();
    store(&mut repo, &mut disk, "alice/email", b"hunter2");
    assert_eq!(disk.count(), 1);
    store(&mut repo, &mut disk, "alice/email", b"hunter3");
    assert_eq!(disk.count(), 1);
    assert_eq!(fetch(&repo, &disk, "alice/email").unwrap(), b"hunter3");
}

#[test]
fn reinsert_reuses_the_filename() {
    let mut repo = Repository::new();
    let first = repo.insert("alice/email");
    let second = repo.insert("alice/email");
    assert_eq!(first, second);
}

#[test]
fn full_scenario_insert_list_delete() {
    let mut repo = Repository::new();
    let mut disk = MemDisk::new();
    store(&mut repo, &mut disk, "alice/email", b"hunter2");
    assert_eq!(fetch(&repo, &disk, "alice/email").unwrap(), b"hunter2");
    assert_eq!(repo.list("alice").unwrap(), vec!["email"]);
    assert_eq!(repo.list("").unwrap(), vec!["alice"]);
    erase(&mut repo, &mut disk, "alice/email").unwrap();
    assert_eq!(fetch(&repo, &disk, "alice/email"), Err(Error::NotFound));
    assert_eq!(repo.list("alice"), None);
    assert_eq!(repo.list("").unwrap(), Vec::<String>::new());
}

#[test]
fn list_is_insertion_order_independent() {
    let mut one = Repository::new();
    one.insert("foo/bar");
    one.insert("foo/baz");
    let mut two = Repository::new();
    two.insert("foo/baz");
    two.insert("foo/bar");

    let mut kids_one = one.list("foo").unwrap();
    let mut kids_two = two.list("foo").unwrap();
    kids_one.sort();
    kids_two.sort();
    assert_eq!(kids_one, vec!["bar", "baz"]);
    assert_eq!(kids_two, vec!["bar", "baz"]);
}

#[test]
fn serialize_deserialize_round_trip() {
    let mut repo = Repository::new();
    let name_a = repo.insert("alice/email");
    let name_b = repo.insert("bob/notes/work");
    let bytes = repo.serialize();
    let restored = Repository::deserialize(&bytes).unwrap();
    assert_eq!(restored.get("alice/email").unwrap(), name_a);
    assert_eq!(restored.get("bob/notes/work").unwrap(), name_b);
    assert_eq!(restored.get("bob/notes"), Err(Error::NotFound));
    let kids = restored.list("bob").unwrap();
    assert_eq!(kids, vec!["notes"]);
}

#[test]
fn empty_repository_round_trip() {
    let repo = Repository::new();
    let bytes = repo.serialize();
    let restored = Repository::deserialize(&bytes).unwrap();
    assert_eq!(restored.get("anything"), Err(Error::NotFound));
}

#[test]
fn non_ascii_paths_survive_the_index() {
    let mut repo = Repository::new();
    let name = repo.insert("пароль/почта");
    let bytes = repo.serialize();
    let restored = Repository::deserialize(&bytes).unwrap();
    assert_eq!(restored.get("пароль/почта").unwrap(), name);
    assert_eq!(restored.list("пароль").unwrap(), vec!["почта"]);
}

#[test]
fn dangling_index_entry_is_an_io_failure() {
    // the documented crash window: an index association whose file was
    // never written
    let mut repo = Repository::new();
    let disk = MemDisk::new();
    repo.insert("alice/email");
    assert_eq!(fetch(&repo, &disk, "alice/email"), Err(Error::IoFailure));
}

fn le(v: u64) -> Vec<u8> {
    v.to_le_bytes().to_vec()
}

fn str_bytes(s: &str) -> Vec<u8> {
    let mut b = le(s.chars().count() as u64);
    for c in s.chars() {
        b.extend(le(c as u64));
    }
    b
}

#[test]
fn deserialize_keeps_the_later_duplicate() {
    // an index file listing the path `a` twice; the later name must win
    let mut bytes = le(2);
    bytes.extend(le(1));
    bytes.extend(str_bytes("a"));
    bytes.extend(str_bytes("x"));
    bytes.extend(le(1));
    bytes.extend(str_bytes("a"));
    bytes.extend(str_bytes("y"));
    let repo = Repository::deserialize(&bytes).unwrap();
    assert_eq!(repo.get("a").unwrap(), "y");
}

#[test]
fn deserialize_rejects_malformed_index() {
    assert_eq!(
        Repository::deserialize(&[1, 2, 3]).err(),
        Some(Error::SerializationFailure)
    );
    let mut repo = Repository::new();
    repo.insert("alice/email");
    let mut bytes = repo.serialize();
    bytes.push(0);
    assert_eq!(
        Repository::deserialize(&bytes).err(),
        Some(Error::SerializationFailure)
    );
    let truncated = &bytes[..bytes.len() - 10];
    assert_eq!(
        Repository::deserialize(truncated).err(),
        Some(Error::SerializationFailure)
    );
}
