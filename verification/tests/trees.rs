use rgit::bytemap::ByteMap;
use rgit::data::{DataType, Ugit};

fn bv(s: &str) -> Vec<u8> {
    s.as_bytes().to_vec()
}

fn map_pairs(m: &ByteMap) -> Vec<(Vec<u8>, Vec<u8>)> {
    let mut v = Vec::new();
    for i in 0..m.len() {
        v.push(m.entry_at(i));
    }
    v
}

#[test]
fn tree_round_trip_flat() {
    let mut repo = Ugit::default();
    let oid_a = repo.hash(&bv("content a"), DataType::Blob).unwrap();
    let oid_b = repo.hash(&bv("content b"), DataType::Blob).unwrap();
    repo.put_index_raw(bv("a.txt"), oid_a.clone());
    repo.put_index_raw(bv("b.txt"), oid_b.clone());
    let root = repo.write_tree().unwrap();
    let expanded = repo.get_tree_in_base(&root).unwrap();
    let pairs = map_pairs(&expanded);
    assert_eq!(
        pairs,
        vec![(bv("a.txt"), oid_a), (bv("b.txt"), oid_b)]
    );
}

#[test]
fn tree_round_trip_nested() {
    let mut repo = Ugit::default();
    let o1 = repo.hash(&bv("one"), DataType::Blob).unwrap();
    let o2 = repo.hash(&bv("two"), DataType::Blob).unwrap();
    let o3 = repo.hash(&bv("three"), DataType::Blob).unwrap();
    repo.put_index_raw(bv("dir/sub/x"), o1.clone());
    repo.put_index_raw(bv("dir/y"), o2.clone());
    repo.put_index_raw(bv("z"), o3.clone());
    let root = repo.write_tree().unwrap();
    let expanded = repo.get_tree_in_base(&root).unwrap();
    let pairs = map_pairs(&expanded);
    assert_eq!(
        pairs,
        vec![
            (bv("dir/sub/x"), o1),
            (bv("dir/y"), o2),
            (bv("z"), o3),
        ]
    );
}

#[test]
fn tree_hash_deterministic_across_insert_order() {
    let mut r1 = Ugit::default();
    let mut r2 = Ugit::default();
    let oa = r1.hash(&bv("alpha"), DataType::Blob).unwrap();
    let ob = r1.hash(&bv("beta"), DataType::Blob).unwrap();
    let _ = r2.hash(&bv("alpha"), DataType::Blob).unwrap();
    let _ = r2.hash(&bv("beta"), DataType::Blob).unwrap();
    r1.put_index_raw(bv("a"), oa.clone());
    r1.put_index_raw(bv("d/e"), ob.clone());
    // the second repository stages the same mapping in another order
    r2.put_index_raw(bv("d/e"), ob);
    r2.put_index_raw(bv("a"), oa);
    assert_eq!(r1.write_tree().unwrap(), r2.write_tree().unwrap());
}

#[test]
fn read_tree_replaces_index() {
    let mut repo = Ugit::default();
    let o1 = repo.hash(&bv("one"), DataType::Blob).unwrap();
    repo.put_index_raw(bv("keep/this"), o1.clone());
    let root = repo.write_tree().unwrap();
    // dirty the index, then restore it from the tree
    repo.put_index_raw(bv("junk"), bv("junkoid"));
    assert!(repo.read_tree(&root));
    assert_eq!(repo.index_len(), 1);
    assert_eq!(repo.index_entry_at(0), (bv("keep/this"), o1));
    // a missing tree leaves the index alone
    assert!(!repo.read_tree(&bv("absent")));
    assert_eq!(repo.index_len(), 1);
}

#[test]
fn idempotent_staging() {
    let mut repo = Ugit::default();
    let files = vec![
        (bv("a.txt"), bv("first file")),
        (bv("b/c.txt"), bv("second file")),
    ];
    repo.add(&files);
    let before: Vec<(Vec<u8>, Vec<u8>)> =
        (0..repo.index_len()).map(|i| repo.index_entry_at(i)).collect();
    let objects_before = repo.objects_len();
    repo.add(&files);
    let after: Vec<(Vec<u8>, Vec<u8>)> =
        (0..repo.index_len()).map(|i| repo.index_entry_at(i)).collect();
    assert_eq!(before, after);
    assert_eq!(objects_before, repo.objects_len());
}

#[test]
fn add_stages_blobs() {
    let mut repo = Ugit::default();
    repo.add(&vec![(bv("f"), bv("data"))]);
    assert_eq!(repo.index_len(), 1);
    let (path, oid) = repo.index_entry_at(0);
    assert_eq!(path, bv("f"));
    assert_eq!(repo.get_object(&oid, DataType::Blob).unwrap(), bv("data"));
}

#[test]
fn working_tree_does_not_touch_index() {
    let mut repo = Ugit::default();
    let wt = repo.get_working_tree(&vec![(bv("w"), bv("work"))]);
    assert_eq!(repo.index_len(), 0);
    assert_eq!(wt.len(), 1);
    let (path, oid) = wt.entry_at(0);
    assert_eq!(path, bv("w"));
    assert_eq!(repo.get_object(&oid, DataType::Any).unwrap(), bv("work"));
}

#[test]
fn ignored_paths() {
    assert!(rgit::base::is_ignored(&bv(".rgit/objects/abc")));
    assert!(rgit::base::is_ignored(&bv("sub/.git/config")));
    assert!(rgit::base::is_ignored(&bv("target/debug/out")));
    assert!(rgit::base::is_ignored(&bv("a/target")));
    assert!(!rgit::base::is_ignored(&bv("src/main.c")));
    assert!(!rgit::base::is_ignored(&bv("targets/file")));
    assert!(!rgit::base::is_ignored(&bv("retarget/file")));
}

#[test]
fn iter_tree_entires_lists_entries() {
    let mut repo = Ugit::default();
    let oid_a = repo.hash(&bv("a"), DataType::Blob).unwrap();
    repo.put_index_raw(bv("d/f"), oid_a.clone());
    let root = repo.write_tree().unwrap();
    let entries = repo.iter_tree_entires(&root).unwrap();
    assert_eq!(entries.len(), 1);
    assert!(matches!(entries[0].0, DataType::Tree));
    assert_eq!(entries[0].2, bv("d"));
    let sub = repo.iter_tree_entires(&entries[0].1).unwrap();
    assert_eq!(sub.len(), 1);
    assert!(matches!(sub[0].0, DataType::Blob));
    assert_eq!(sub[0].1, oid_a);
    assert_eq!(sub[0].2, bv("f"));
}
