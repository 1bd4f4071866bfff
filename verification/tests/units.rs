use rgit::bytemap::ByteMap;
use rgit::byteset::ByteSet;
use rgit::data::{DataType, Ugit};

fn bv(s: &str) -> Vec<u8> {
    s.as_bytes().to_vec()
}

#[test]
fn bytemap_insert_replace_remove() {
    let mut m = ByteMap::new();
    m.insert(bv("b"), bv("2"));
    m.insert(bv("a"), bv("1"));
    m.insert(bv("c"), bv("3"));
    assert_eq!(m.len(), 3);
    // entries come back sorted by key
    assert_eq!(m.entry_at(0), (bv("a"), bv("1")));
    assert_eq!(m.entry_at(1), (bv("b"), bv("2")));
    assert_eq!(m.entry_at(2), (bv("c"), bv("3")));
    // replacing keeps one entry per key
    m.insert(bv("b"), bv("22"));
    assert_eq!(m.len(), 3);
    assert_eq!(m.get(&bv("b")).unwrap(), &bv("22"));
    m.remove(&bv("a"));
    assert_eq!(m.len(), 2);
    assert!(m.get(&bv("a")).is_none());
    // removing an absent key is a no-op
    m.remove(&bv("zz"));
    assert_eq!(m.len(), 2);
}

#[test]
fn bytemap_same_entries_is_content_equality() {
    let mut m1 = ByteMap::new();
    m1.insert(bv("x"), bv("1"));
    m1.insert(bv("y"), bv("2"));
    let mut m2 = ByteMap::new();
    m2.insert(bv("y"), bv("2"));
    m2.insert(bv("x"), bv("1"));
    assert!(m1.same_entries(&m2));
    m2.insert(bv("x"), bv("other"));
    assert!(!m1.same_entries(&m2));
}

#[test]
fn byteset_membership() {
    let mut s = ByteSet::new();
    s.insert(bv("m"));
    s.insert(bv("a"));
    s.insert(bv("m"));
    assert_eq!(s.len(), 2);
    assert!(s.contains(&bv("a")));
    assert!(!s.contains(&bv("q")));
    assert_eq!(s.at(0), bv("a"));
    assert_eq!(s.at(1), bv("m"));
}

#[test]
fn envelope_keeps_embedded_delimiters() {
    let mut repo = Ugit::default();
    let content = vec![1u8, 0, 2, 0, 3];
    let oid = repo.hash(&content, DataType::Blob).unwrap();
    assert_eq!(repo.get_object(&oid, DataType::Blob).unwrap(), content);
}

#[test]
fn tree_names_may_hold_spaces() {
    let mut repo = Ugit::default();
    let oid = repo.hash(&bv("data"), DataType::Blob).unwrap();
    repo.put_index_raw(bv("dir name/file name.txt"), oid.clone());
    let root = repo.write_tree().unwrap();
    let expanded = repo.get_tree_in_base(&root).unwrap();
    assert_eq!(expanded.len(), 1);
    assert_eq!(expanded.entry_at(0), (bv("dir name/file name.txt"), oid));
}

#[test]
fn commit_message_lines_are_joined() {
    let mut repo = Ugit::default();
    repo.init_repo();
    let oid = repo.commit(&bv("first\nsecond")).unwrap();
    // the line-based commit grammar folds the message's lines together
    let commit = repo.get_commit(&oid).unwrap();
    assert_eq!(commit.message.unwrap(), bv("firstsecond"));
}

#[test]
fn get_commit_rejects_blobs() {
    let mut repo = Ugit::default();
    let oid = repo.hash(&bv("not a commit"), DataType::Blob).unwrap();
    assert!(repo.get_commit(&oid).is_none());
    assert!(repo.get_commit(&bv("missing")).is_none());
}

#[test]
fn get_tree_rejects_non_trees() {
    let mut repo = Ugit::default();
    let oid = repo.hash(&bv("plain blob"), DataType::Blob).unwrap();
    assert!(repo.get_tree_in_base(&oid).is_none());
    assert!(repo.get_tree_in_base(&bv("missing")).is_none());
}

#[test]
fn get_oid_prefers_literal_ref_over_namespaces() {
    let mut repo = Ugit::default();
    repo.put_ref_raw(bv("refs/tags/x"), bv("tag-target"));
    repo.put_ref_raw(bv("refs/heads/x"), bv("head-target"));
    // the tag namespace is tried before the branch namespace
    assert_eq!(repo.get_oid(&bv("x")), bv("tag-target"));
    // a fully named ref wins outright
    assert_eq!(repo.get_oid(&bv("refs/heads/x")), bv("head-target"));
}

#[test]
fn empty_tree_write_and_read() {
    let mut repo = Ugit::default();
    let root = repo.write_tree().unwrap();
    let expanded = repo.get_tree_in_base(&root).unwrap();
    assert_eq!(expanded.len(), 0);
}
