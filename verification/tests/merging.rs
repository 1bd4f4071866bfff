use rgit::base::MergeOutcome;
use rgit::data::{DataType, Ugit};
use rgit::diff::MergeItem;

fn bv(s: &str) -> Vec<u8> {
    s.as_bytes().to_vec()
}

fn commit_files(repo: &mut Ugit, files: &[(&str, &str)], msg: &str) -> Vec<u8> {
    let pairs: Vec<(Vec<u8>, Vec<u8>)> =
        files.iter().map(|(p, c)| (bv(p), bv(c))).collect();
    repo.add(&pairs);
    repo.commit(&bv(msg)).unwrap()
}

/// Play the part of the external three-way text merger: pass a side
/// through when the sides agree or only one changed, and wrap both
/// sides in conflict markers otherwise.
fn resolve_items(repo: &Ugit, items: &[MergeItem]) -> Vec<(Vec<u8>, Vec<u8>)> {
    let mut merged = Vec::new();
    for item in items {
        let read = |oid: &Option<Vec<u8>>| -> Vec<u8> {
            match oid {
                Some(o) => repo.get_object(o, DataType::Any).unwrap(),
                None => Vec::new(),
            }
        };
        let base = read(&item.base);
        let head = read(&item.head);
        let other = read(&item.other);
        let content = if head == other || other == base {
            head
        } else if head == base {
            other
        } else {
            let mut c = bv("<<<<<<< HEAD\n");
            c.extend_from_slice(&head);
            c.extend_from_slice(&bv("\n=======\n"));
            c.extend_from_slice(&other);
            c.extend_from_slice(&bv("\n>>>>>>> MERGE_HEAD\n"));
            c
        };
        merged.push((item.path.clone(), content));
    }
    merged
}

#[test]
fn merge_disjoint_changes() {
    let mut repo = Ugit::default();
    repo.init_repo();
    let c1 = commit_files(&mut repo, &[("shared", "base")], "c1");
    // branch a changes one file
    let c_a = commit_files(&mut repo, &[("from_a", "a")], "a side");
    // branch b starts again from c1 and changes another
    repo.reset(c1.clone());
    let t1 = repo.get_commit(&c1).unwrap().tree.unwrap();
    repo.read_tree(&t1);
    let c_b = commit_files(&mut repo, &[("from_b", "b")], "b side");
    assert_eq!(repo.get_merge_base(&c_a, &c_b).unwrap(), c1);
    // merge a into b
    let items = match repo.merge(&c_a) {
        MergeOutcome::Merging(items) => items,
        _ => panic!("expected a true merge"),
    };
    assert!(repo.get_ref_if_not_empty(&bv("MERGE_HEAD")).is_some());
    let merged = resolve_items(&repo, &items);
    // no conflict markers anywhere
    for (_, content) in &merged {
        assert!(!content.windows(7).any(|w| w == b"<<<<<<<"));
    }
    repo.read_tree_merged(&merged).unwrap();
    let m = repo.commit(&bv("merge")).unwrap();
    // the merge commit has both parents and both changes
    let commit = repo.get_commit(&m).unwrap();
    assert_eq!(commit.parents, vec![c_b, c_a]);
    let tree = repo.get_tree_in_base(&commit.tree.unwrap()).unwrap();
    let mut paths = Vec::new();
    for i in 0..tree.len() {
        paths.push(tree.entry_at(i).0);
    }
    assert_eq!(paths, vec![bv("from_a"), bv("from_b"), bv("shared")]);
    // the pending merge was cleared by the commit
    assert!(repo.get_ref_if_not_empty(&bv("MERGE_HEAD")).is_none());
}

#[test]
fn merge_conflicting_changes() {
    let mut repo = Ugit::default();
    repo.init_repo();
    let c0 = commit_files(&mut repo, &[("file", "base\n")], "c0");
    let c_a = commit_files(&mut repo, &[("file", "change a\n")], "a");
    repo.reset(c0.clone());
    let t0 = repo.get_commit(&c0).unwrap().tree.unwrap();
    repo.read_tree(&t0);
    let _c_b = commit_files(&mut repo, &[("file", "change b\n")], "b");
    let items = match repo.merge(&c_a) {
        MergeOutcome::Merging(items) => items,
        _ => panic!("expected a true merge"),
    };
    let merged = resolve_items(&repo, &items);
    let content = &merged.iter().find(|(p, _)| p == &bv("file")).unwrap().1;
    assert!(content.windows(7).any(|w| w == b"<<<<<<<"));
    assert!(content.windows(7).any(|w| w == b">>>>>>>"));
    // the merge stays pending until a commit records it
    assert!(repo.get_ref_if_not_empty(&bv("MERGE_HEAD")).is_some());
    repo.read_tree_merged(&merged).unwrap();
    assert!(repo.get_ref_if_not_empty(&bv("MERGE_HEAD")).is_some());
    let m = repo.commit(&bv("merged")).unwrap();
    assert!(repo.get_ref_if_not_empty(&bv("MERGE_HEAD")).is_none());
    assert_eq!(repo.get_commit(&m).unwrap().parents.len(), 2);
}

#[test]
fn merge_unexpandable_tree_reports_trees_missing() {
    let mut repo = Ugit::default();
    repo.init_repo();
    let c0 = commit_files(&mut repo, &[("f", "base")], "c0");
    let c_a = commit_files(&mut repo, &[("f", "a")], "a");
    repo.reset(c0.clone());
    let t0 = repo.get_commit(&c0).unwrap().tree.unwrap();
    repo.read_tree(&t0);
    let c_b = commit_files(&mut repo, &[("f", "b")], "b");
    // corrupt the head commit's tree object: overwrite it under a
    // blob kind so the three-way expansion fails
    let head_tree = repo.get_commit(&c_b).unwrap().tree.unwrap();
    let mut stored = bv("Blob");
    stored.push(0);
    stored.extend_from_slice(b"junk");
    repo.put_object_raw(head_tree, stored);
    let outcome = repo.merge(&c_a);
    assert!(matches!(outcome, MergeOutcome::TreesMissing));
    // the pending merge mark was already set
    assert!(repo.get_ref_if_not_empty(&bv("MERGE_HEAD")).is_some());
}

#[test]
fn merge_without_head_fails() {
    let mut repo = Ugit::default();
    repo.init_repo();
    let outcome = repo.merge(&bv("anything"));
    assert!(matches!(outcome, MergeOutcome::HeadMissing));
}

#[test]
fn merge_missing_commit_fails() {
    let mut repo = Ugit::default();
    repo.init_repo();
    let _c1 = commit_files(&mut repo, &[("f", "1")], "one");
    let outcome = repo.merge(&bv("no-such-commit"));
    assert!(matches!(outcome, MergeOutcome::CommitMissing));
}

#[test]
fn diff_tree_reports_changes() {
    let mut repo = Ugit::default();
    let o1 = repo.hash(&bv("one"), DataType::Blob).unwrap();
    let o2 = repo.hash(&bv("two"), DataType::Blob).unwrap();
    let mut from = rgit::bytemap::ByteMap::new();
    from.insert(bv("same"), o1.clone());
    from.insert(bv("edited"), o1.clone());
    from.insert(bv("removed"), o1.clone());
    let mut to = rgit::bytemap::ByteMap::new();
    to.insert(bv("same"), o1.clone());
    to.insert(bv("edited"), o2.clone());
    to.insert(bv("added"), o2.clone());
    let report = rgit::diff::diff_tree(&from, &to);
    let expected = bv("changed:added\nchanged:edited\nchanged:removed\n");
    assert_eq!(report, expected);
}

#[test]
fn iter_changed_files_classifies() {
    let mut repo = Ugit::default();
    let o1 = repo.hash(&bv("one"), DataType::Blob).unwrap();
    let o2 = repo.hash(&bv("two"), DataType::Blob).unwrap();
    let mut from = rgit::bytemap::ByteMap::new();
    from.insert(bv("same"), o1.clone());
    from.insert(bv("edited"), o1.clone());
    from.insert(bv("removed"), o1.clone());
    let mut to = rgit::bytemap::ByteMap::new();
    to.insert(bv("same"), o1.clone());
    to.insert(bv("edited"), o2.clone());
    to.insert(bv("added"), o2.clone());
    let actions = rgit::diff::iter_changed_files(&from, &to);
    assert_eq!(actions.len(), 3);
    assert_eq!(actions.get(&bv("added")).unwrap(), &bv("new file"));
    assert_eq!(actions.get(&bv("edited")).unwrap(), &bv("modified"));
    assert_eq!(actions.get(&bv("removed")).unwrap(), &bv("deleted"));
    assert!(actions.get(&bv("same")).is_none());
}
