use rgit::base::MergeOutcome;
use rgit::data::{DataType, Ugit};

fn bv(s: &str) -> Vec<u8> {
    s.as_bytes().to_vec()
}

fn commit_file(repo: &mut Ugit, path: &str, content: &str, msg: &str) -> Vec<u8> {
    repo.add(&vec![(bv(path), bv(content))]);
    repo.commit(&bv(msg)).unwrap()
}

#[test]
fn root_commit_scenario() {
    let mut repo = Ugit::default();
    repo.init_repo();
    let oid = repo.commit(&bv("root")).unwrap();
    let commit = repo.get_commit(&oid).unwrap();
    // the tree is the empty tree's id
    let mut scratch = Ugit::default();
    let empty_tree = scratch.hash(&Vec::new(), DataType::Tree).unwrap();
    assert_eq!(commit.tree.unwrap(), empty_tree);
    assert_eq!(commit.parents.len(), 0);
    assert_eq!(commit.message.unwrap(), bv("root"));
    // HEAD followed the commit
    let head = repo.get_ref_recursive(&bv("HEAD")).unwrap();
    assert_eq!(head.value, oid);
}

#[test]
fn commit_records_parent_chain() {
    let mut repo = Ugit::default();
    repo.init_repo();
    let c1 = commit_file(&mut repo, "f", "v1", "first");
    let c2 = commit_file(&mut repo, "f", "v2", "second");
    let commit2 = repo.get_commit(&c2).unwrap();
    assert_eq!(commit2.parents, vec![c1.clone()]);
    let commit1 = repo.get_commit(&c1).unwrap();
    assert_eq!(commit1.parents.len(), 0);
}

#[test]
fn traversal_order_first_parent_first() {
    let mut repo = Ugit::default();
    repo.init_repo();
    let c1 = commit_file(&mut repo, "f", "1", "one");
    let c2 = commit_file(&mut repo, "f", "2", "two");
    let c3 = commit_file(&mut repo, "f", "3", "three");
    let walk = repo.iter_commits_and_parents(vec![c3.clone()]);
    assert_eq!(walk, vec![c3, c2, c1]);
}

#[test]
fn ancestor_self_containment() {
    let mut repo = Ugit::default();
    repo.init_repo();
    let c1 = commit_file(&mut repo, "f", "1", "one");
    assert!(repo.is_ancestor_of(&c1, &c1));
}

#[test]
fn ancestor_of_descendant() {
    let mut repo = Ugit::default();
    repo.init_repo();
    let c1 = commit_file(&mut repo, "f", "1", "one");
    let c2 = commit_file(&mut repo, "f", "2", "two");
    assert!(repo.is_ancestor_of(&c2, &c1));
    assert!(!repo.is_ancestor_of(&c1, &c2));
}

#[test]
fn merge_base_symmetry_on_linear_history() {
    let mut repo = Ugit::default();
    repo.init_repo();
    let c1 = commit_file(&mut repo, "f", "1", "one");
    let c2 = commit_file(&mut repo, "f", "2", "two");
    // both directions agree on the earlier commit
    assert_eq!(repo.get_merge_base(&c1, &c2).unwrap(), c1);
    assert_eq!(repo.get_merge_base(&c2, &c1).unwrap(), c1);
    assert_eq!(repo.get_merge_base(&c2, &c2).unwrap(), c2);
}

#[test]
fn merge_base_of_branches() {
    let mut repo = Ugit::default();
    repo.init_repo();
    let c0 = commit_file(&mut repo, "base", "0", "base");
    let c_a = commit_file(&mut repo, "a", "a", "on a");
    // build the second branch from c0
    repo.reset(c0.clone());
    let t0 = repo.get_commit(&c0).unwrap().tree.unwrap();
    repo.read_tree(&t0);
    let c_b = commit_file(&mut repo, "b", "b", "on b");
    assert_eq!(repo.get_merge_base(&c_a, &c_b).unwrap(), c0);
    assert_eq!(repo.get_merge_base(&c_b, &c_a).unwrap(), c0);
}

#[test]
fn fast_forward_merge() {
    let mut repo = Ugit::default();
    repo.init_repo();
    let c1 = commit_file(&mut repo, "f", "1", "one");
    let c2 = commit_file(&mut repo, "f", "2", "two");
    // move HEAD back to the ancestor, then merge the descendant
    repo.reset(c1.clone());
    let outcome = repo.merge(&c2);
    assert!(matches!(outcome, MergeOutcome::FastForwarded));
    let head = repo.get_ref_recursive(&bv("HEAD")).unwrap();
    assert_eq!(head.value, c2);
    // no merge is pending and no merge commit was created
    assert!(repo.get_ref_if_not_empty(&bv("MERGE_HEAD")).is_none());
    assert_eq!(repo.get_commit(&c2).unwrap().parents, vec![c1]);
}

#[test]
fn checkout_moves_head_and_index() {
    let mut repo = Ugit::default();
    repo.init_repo();
    let c1 = commit_file(&mut repo, "f", "1", "one");
    let _c2 = commit_file(&mut repo, "f", "2", "two");
    assert!(repo.checkout(&c1));
    // detached: HEAD holds the raw id
    let head = repo.get_ref(&bv("HEAD"), false).unwrap();
    assert!(!head.symbolic);
    assert_eq!(head.value, c1);
    // the index holds c1's tree
    let (path, oid) = repo.index_entry_at(0);
    assert_eq!(path, bv("f"));
    assert_eq!(repo.get_object(&oid, DataType::Any).unwrap(), bv("1"));
    // checking out a branch name leaves HEAD symbolic
    assert!(repo.checkout(&bv("master")));
    let head = repo.get_ref(&bv("HEAD"), false).unwrap();
    assert!(head.symbolic);
    assert_eq!(head.value, bv("refs/heads/master"));
}

#[test]
fn checkout_missing_commit_fails() {
    let mut repo = Ugit::default();
    repo.init_repo();
    assert!(!repo.checkout(&bv("feedface")));
}
