use rgit::data::{DataType, Ugit};

fn bv(s: &str) -> Vec<u8> {
    s.as_bytes().to_vec()
}

fn commit_files(repo: &mut Ugit, files: &[(&str, &str)], msg: &str) -> Vec<u8> {
    let pairs: Vec<(Vec<u8>, Vec<u8>)> =
        files.iter().map(|(p, c)| (bv(p), bv(c))).collect();
    repo.add(&pairs);
    repo.commit(&bv(msg)).unwrap()
}

#[test]
fn closure_holds_commit_tree_and_blobs() {
    let mut repo = Ugit::default();
    repo.init_repo();
    let c1 = commit_files(&mut repo, &[("d/f", "data")], "one");
    let commit = repo.get_commit(&c1).unwrap();
    let tree = commit.tree.unwrap();
    let closure = repo.iter_objects_in_commits(vec![c1.clone()]);
    assert!(closure.contains(&c1));
    assert!(closure.contains(&tree));
    // the subtree and the blob are reachable too
    let entries = repo.iter_tree_entires(&tree).unwrap();
    assert!(closure.contains(&entries[0].1));
    let sub = repo.iter_tree_entires(&entries[0].1).unwrap();
    assert!(closure.contains(&sub[0].1));
    assert_eq!(closure.len(), 4);
}

#[test]
fn fetch_copies_closure_and_creates_tracking_refs() {
    let mut remote = Ugit::default();
    remote.init_repo();
    let t1 = commit_files(&mut remote, &[("a", "1")], "tip one");
    remote.create_branch(&bv("one"), &t1);
    // a second branch with its own commit
    let t2 = commit_files(&mut remote, &[("b", "2")], "tip two");
    remote.create_branch(&bv("two"), &t2);
    // an object no branch reaches must not travel
    let stray = remote.hash(&bv("stray"), DataType::Blob).unwrap();

    let mut local = Ugit::default();
    local.fetch(&remote);

    // exactly the closure of the two tips came over
    let closure = remote.iter_objects_in_commits(vec![t1.clone(), t2.clone()]);
    for i in 0..closure.len() {
        let oid = closure.at(i);
        assert!(local.objects_exists(&oid));
    }
    assert!(!local.objects_exists(&stray));
    assert_eq!(local.objects_len(), closure.len());

    // tracking references point at the tips
    let m = local.get_ref_if_not_empty(&bv("refs/remote/master")).unwrap();
    assert_eq!(m.value, t2);
    let one = local.get_ref_if_not_empty(&bv("refs/remote/one")).unwrap();
    assert_eq!(one.value, t1);
    let two = local.get_ref_if_not_empty(&bv("refs/remote/two")).unwrap();
    assert_eq!(two.value, t2);
}

#[test]
fn fetch_skips_already_present_objects() {
    let mut remote = Ugit::default();
    remote.init_repo();
    let t1 = commit_files(&mut remote, &[("a", "1")], "tip");
    let mut local = Ugit::default();
    // the blob is already present locally; fetch leaves it alone
    let blob = local.hash(&bv("1"), DataType::Blob).unwrap();
    local.fetch(&remote);
    assert!(local.objects_exists(&blob));
    assert!(local.objects_exists(&t1));
}

#[test]
fn push_sends_difference_and_updates_ref() {
    let mut local = Ugit::default();
    local.init_repo();
    let c1 = commit_files(&mut local, &[("f", "1")], "one");
    let c2 = commit_files(&mut local, &[("f", "2")], "two");

    // the remote already knows the first commit
    let mut remote = Ugit::default();
    remote.init_repo();
    local.push(&mut remote, &bv("refs/heads/master"));
    assert!(remote.objects_exists(&c1));
    assert!(remote.objects_exists(&c2));
    let tip = remote.get_ref_if_not_empty(&bv("refs/heads/master")).unwrap();
    assert_eq!(tip.value, c2);

    // a second push of the same state sends nothing new
    let before = remote.objects_len();
    local.push(&mut remote, &bv("refs/heads/master"));
    assert_eq!(remote.objects_len(), before);
}

#[test]
fn push_missing_ref_fails() {
    let local = Ugit::default();
    let mut remote = Ugit::default();
    assert!(!local.push(&mut remote, &bv("refs/heads/nothing")));
    assert_eq!(remote.objects_len(), 0);
}

#[test]
fn fetch_then_fast_forward() {
    // a remote one commit ahead of the local clone
    let mut remote = Ugit::default();
    remote.init_repo();
    let c1 = commit_files(&mut remote, &[("f", "1")], "one");
    let mut local = Ugit::default();
    local.init_repo();
    local.fetch(&remote);
    local.reset(c1.clone());
    let c2 = commit_files(&mut remote, &[("f", "2")], "two");
    local.fetch(&remote);
    let outcome = local.merge(&bv("refs/remote/master"));
    assert!(matches!(outcome, rgit::base::MergeOutcome::FastForwarded));
    let head = local.get_ref_recursive(&bv("HEAD")).unwrap();
    assert_eq!(head.value, c2);
}
