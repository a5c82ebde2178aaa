use git_odb::{encode_tree, DecodeState, Entry, EntryKind, Error, ObjectId, TreeRefIter};

fn hex_to_id(hex: &str) -> ObjectId {
    ObjectId::from_hex(hex).unwrap()
}

fn raw_entry(out: &mut Vec<u8>, mode: &str, name: &str, hex: &str) {
    out.extend_from_slice(mode.as_bytes());
    out.push(b' ');
    out.extend_from_slice(name.as_bytes());
    out.push(0);
    out.extend_from_slice(hex_to_id(hex).as_bytes());
}

/// A tree as git writes it: an executable, a file, a submodule, a directory and a link.
fn everything_tree() -> Vec<u8> {
    let mut out = Vec::new();
    raw_entry(&mut out, "100755", "exe", "e69de29bb2d1d6434b8b29ae775ad8c2e48c5391");
    raw_entry(&mut out, "100644", "file", "e69de29bb2d1d6434b8b29ae775ad8c2e48c5391");
    raw_entry(&mut out, "160000", "grit-submodule", "b2d1b5d684bdfda5f922b466cc13d4ce2d635cf8");
    raw_entry(&mut out, "40000", "subdir", "4d5fcadc293a348e88f777dc0920f11e7d71441c");
    raw_entry(&mut out, "120000", "symlink", "1a010b1c0f081b2e8901d55307a15c29ff30af0e");
    out
}

fn entry(mode: EntryKind, name: &str, hex: &str) -> Entry {
    Entry { mode, filename: name.as_bytes().to_vec(), oid: hex_to_id(hex) }
}

fn decode(data: &[u8]) -> Vec<Result<Entry, Error>> {
    TreeRefIter::from_bytes(data).collect_items()
}

#[test]
fn empty() {
    assert_eq!(decode(&[]).len(), 0, "empty trees are definitely ok");
    let mut it = TreeRefIter::from_bytes(&[]);
    assert!(it.next().is_none());
    assert_eq!(it.state(), DecodeState::Done);
}

#[test]
fn error_handling() {
    let data = everything_tree();
    let entries = decode(&data[..data.len() / 2]);
    assert!(
        entries.last().expect("at least one token").is_err(),
        "errors are propagated and none is returned from that point on"
    );
}

#[test]
fn everything() {
    let entries: Result<Vec<_>, _> = decode(&everything_tree()).into_iter().collect();
    assert_eq!(
        entries.unwrap(),
        vec![
            entry(EntryKind::BlobExecutable, "exe", "e69de29bb2d1d6434b8b29ae775ad8c2e48c5391"),
            entry(EntryKind::Blob, "file", "e69de29bb2d1d6434b8b29ae775ad8c2e48c5391"),
            entry(EntryKind::Commit, "grit-submodule", "b2d1b5d684bdfda5f922b466cc13d4ce2d635cf8"),
            entry(EntryKind::Tree, "subdir", "4d5fcadc293a348e88f777dc0920f11e7d71441c"),
            entry(EntryKind::Link, "symlink", "1a010b1c0f081b2e8901d55307a15c29ff30af0e"),
        ]
    );
}

#[test]
fn padded_tree_mode_is_accepted() {
    let mut data = Vec::new();
    raw_entry(&mut data, "040000", "dir", "4d5fcadc293a348e88f777dc0920f11e7d71441c");
    let items = decode(&data);
    assert_eq!(items, vec![Ok(entry(EntryKind::Tree, "dir", "4d5fcadc293a348e88f777dc0920f11e7d71441c"))]);
}

#[test]
fn unknown_mode_is_malformed() {
    let mut data = Vec::new();
    raw_entry(&mut data, "100600", "x", "4d5fcadc293a348e88f777dc0920f11e7d71441c");
    assert_eq!(decode(&data), vec![Err(Error::MalformedTreeEntry)]);
}

#[test]
fn slash_in_name_is_malformed() {
    let mut data = Vec::new();
    raw_entry(&mut data, "100644", "ok", "e69de29bb2d1d6434b8b29ae775ad8c2e48c5391");
    raw_entry(&mut data, "100644", "a/b", "e69de29bb2d1d6434b8b29ae775ad8c2e48c5391");
    let items = decode(&data);
    assert_eq!(items.len(), 2);
    assert!(items[0].is_ok());
    assert_eq!(items[1], Err(Error::MalformedTreeEntry));
}

#[test]
fn error_is_terminal() {
    let data = everything_tree();
    let cut = &data[..data.len() - 1];
    let mut it = TreeRefIter::from_bytes(cut);
    for _ in 0..4 {
        assert!(matches!(it.next(), Some(Ok(_))));
    }
    assert_eq!(it.next(), Some(Err(Error::MalformedTreeEntry)));
    assert_eq!(it.state(), DecodeState::Errored);
    assert!(it.next().is_none());
    assert!(it.next().is_none());
}

#[test]
fn round_trip_through_encoding() {
    let data = everything_tree();
    let first = decode(&data);
    let entries: Vec<Entry> = first.iter().cloned().map(|r| r.unwrap()).collect();
    let encoded = encode_tree(&entries);
    assert_eq!(encoded, data);
    assert_eq!(decode(&encoded), first);
}

#[test]
fn decoding_is_deterministic() {
    let data = everything_tree();
    assert_eq!(decode(&data), decode(&data));
}

#[test]
fn prefixes_yield_whole_entries_then_one_error() {
    let data = everything_tree();
    let full = decode(&data);
    let mut ends = vec![0usize];
    let mut it = TreeRefIter::from_bytes(&data);
    let mut len = 0;
    while let Some(Ok(e)) = it.next() {
        len += 6 + 1 + e.filename.len() + 1 + 20;
        if e.mode == EntryKind::Tree {
            len -= 1;
        }
        ends.push(len);
    }
    assert_eq!(*ends.last().unwrap(), data.len());
    for k in 0..data.len() {
        let items = decode(&data[..k]);
        let whole = ends.iter().filter(|&&end| end <= k && end > 0).count();
        assert_eq!(&items[..whole], &full[..whole]);
        if ends.contains(&k) {
            assert_eq!(items.len(), whole);
        } else {
            assert_eq!(items.len(), whole + 1);
            assert_eq!(items[whole], Err(Error::MalformedTreeEntry));
        }
    }
}
