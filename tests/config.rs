use git_odb::File;

#[test]
fn new_is_empty() {
    assert_eq!(File::new().len(), 0);
}

#[test]
fn at_holds_one_source() {
    let f = File::at("a/config", b"[core]\n".to_vec());
    assert_eq!(f.len(), 1);
    assert_eq!(f.source(0).path, "a/config");
    assert_eq!(f.source(0).text, b"[core]\n".to_vec());
}

#[test]
fn from_paths_keeps_order() {
    let f = File::from_paths(vec![
        ("one".to_string(), b"1".to_vec()),
        ("two".to_string(), b"2".to_vec()),
        ("three".to_string(), b"3".to_vec()),
    ]);
    assert_eq!(f.len(), 3);
    assert_eq!(f.source(0).path, "one");
    assert_eq!(f.source(1).path, "two");
    assert_eq!(f.source(2).text, b"3".to_vec());
}

#[test]
fn append_puts_other_last() {
    let mut f = File::at("first", vec![1]);
    f.append(File::at("second", vec![2]));
    assert_eq!(f.len(), 2);
    assert_eq!(f.source(1).path, "second");
}
