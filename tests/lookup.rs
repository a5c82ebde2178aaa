use git_odb::{
    encode_tree, lookup_entry_by_path, lookup_level_step, Entry, EntryKind, Error, Find, Level, MemoryStore, ObjectId,
    ObjectKind,
};

fn hex_to_id(hex: &str) -> ObjectId {
    ObjectId::from_hex(hex).unwrap()
}

const ROOT: &str = "ff7e7d2aecae1c3fb15054b289a4c58aa65b8646";
const BLOB: &str = "e69de29bb2d1d6434b8b29ae775ad8c2e48c5391";
const SUBTREE: &str = "496d6428b9cf92981dc9495211e6e1120fb6f2ba";
const BROKEN: &str = "0000000000000000000000000000000000000001";

fn entry(mode: EntryKind, name: &str, hex: &str) -> Entry {
    Entry { mode, filename: name.as_bytes().to_vec(), oid: hex_to_id(hex) }
}

/// A root tree with a file `bin`, a directory `file` holding `a`, and a
/// directory `broken` whose tree is not stored.
fn tree_odb() -> MemoryStore {
    let mut odb = MemoryStore::new();
    let sub = encode_tree(&vec![entry(EntryKind::Blob, "a", BLOB)]);
    let root = encode_tree(&vec![
        entry(EntryKind::BlobExecutable, "bin", BLOB),
        entry(EntryKind::Tree, "broken", BROKEN),
        entry(EntryKind::Tree, "file", SUBTREE),
    ]);
    odb.insert(hex_to_id(ROOT), ObjectKind::Tree, root);
    odb.insert(hex_to_id(SUBTREE), ObjectKind::Tree, sub);
    odb.insert(hex_to_id(BLOB), ObjectKind::Blob, Vec::new());
    odb
}

fn lookup(path: &str) -> Result<Option<Entry>, Error> {
    lookup_entry_by_path(&tree_odb(), &hex_to_id(ROOT), path.as_bytes())
}

#[test]
fn lookup_entry_toplevel() {
    let entry = lookup("bin").unwrap().unwrap();
    assert!(matches!(entry, Entry { .. }));
    assert_eq!(entry.filename, b"bin");
    assert_eq!(entry.mode, EntryKind::BlobExecutable);
}

#[test]
fn lookup_entry_nested_path() {
    let entry = lookup("file/a").unwrap().unwrap();
    assert!(matches!(entry, Entry { .. }));
    assert_eq!(entry.filename, b"a");
    assert_eq!(entry.oid, hex_to_id(BLOB));
}

#[test]
fn lookup_missing_component_is_none() {
    assert_eq!(lookup("nope"), Ok(None));
    assert_eq!(lookup("nope/a"), Ok(None));
    assert_eq!(lookup("file/nope"), Ok(None));
}

#[test]
fn lookup_through_a_file_is_not_a_directory() {
    assert_eq!(lookup("bin/a"), Err(Error::NotADirectory));
}

#[test]
fn lookup_propagates_a_missing_tree() {
    assert_eq!(lookup("broken/a"), Err(Error::NotFound));
}

#[test]
fn lookup_from_a_blob_is_wrong_kind() {
    let r = lookup_entry_by_path(&tree_odb(), &hex_to_id(BLOB), b"a");
    assert_eq!(r, Err(Error::WrongObjectKind { expected: ObjectKind::Tree, actual: ObjectKind::Blob }));
}

#[test]
fn lookup_stops_at_a_malformed_tree() {
    let mut odb = tree_odb();
    odb.insert(hex_to_id(SUBTREE), ObjectKind::Tree, b"100644 a".to_vec());
    let r = lookup_entry_by_path(&odb, &hex_to_id(ROOT), b"file/a");
    assert_eq!(r, Err(Error::MalformedTreeEntry));
}

#[test]
fn memory_store_find() {
    let odb = tree_odb();
    let found = odb.find(&hex_to_id(BLOB), ObjectKind::Blob).unwrap();
    assert_eq!(found.kind, ObjectKind::Blob);
    assert!(found.data.is_empty());
    assert_eq!(odb.find(&hex_to_id(BROKEN), ObjectKind::Tree), Err(Error::NotFound));
    assert_eq!(
        odb.find(&hex_to_id(ROOT), ObjectKind::Commit),
        Err(Error::WrongObjectKind { expected: ObjectKind::Commit, actual: ObjectKind::Tree })
    );
}

#[test]
fn memory_store_replaces() {
    let mut odb = MemoryStore::new();
    odb.insert(hex_to_id(BLOB), ObjectKind::Blob, b"one".to_vec());
    odb.insert(hex_to_id(BLOB), ObjectKind::Blob, b"two".to_vec());
    assert_eq!(odb.find(&hex_to_id(BLOB), ObjectKind::Blob).unwrap().data, b"two".to_vec());
}

#[test]
fn level_steps_descend_then_finish() {
    let odb = tree_odb();
    let root = odb.find(&hex_to_id(ROOT), ObjectKind::Tree).map(|o| o.data);
    match lookup_level_step(b"file/a", 0, root) {
        Level::Descend(id, next) => {
            assert_eq!(id, hex_to_id(SUBTREE));
            assert_eq!(next, 5);
            let sub = odb.find(&id, ObjectKind::Tree).map(|o| o.data);
            match lookup_level_step(b"file/a", next, sub) {
                Level::Finished(r) => assert_eq!(r.unwrap().unwrap().filename, b"a"),
                Level::Descend(..) => panic!("a blob is not descended into"),
            }
        }
        Level::Finished(_) => panic!("the first component is a tree"),
    }
    match lookup_level_step(b"x", 0, Err(Error::IoError)) {
        Level::Finished(r) => assert_eq!(r, Err(Error::IoError)),
        Level::Descend(..) => panic!("a failed fetch ends the lookup"),
    }
}
