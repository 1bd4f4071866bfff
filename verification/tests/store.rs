use rgit::data::{DataType, DateErr, Ugit};

fn bv(s: &str) -> Vec<u8> {
    s.as_bytes().to_vec()
}

#[test]
fn content_addressing_round_trip() {
    let mut repo = Ugit::default();
    let content = bv("hello world");
    let oid = repo.hash(&content, DataType::Blob).unwrap();
    let back = repo.get_object(&oid, DataType::Blob).unwrap();
    assert_eq!(back, content);
    // hashing the same bytes twice yields the same id
    let oid2 = repo.hash(&content, DataType::Blob).unwrap();
    assert_eq!(oid, oid2);
    assert_eq!(oid.len(), 40);
}

#[test]
fn content_addressing_distinct_contents() {
    let mut repo = Ugit::default();
    let a = repo.hash(&bv("aaa"), DataType::Blob).unwrap();
    let b = repo.hash(&bv("bbb"), DataType::Blob).unwrap();
    assert_ne!(a, b);
    assert_eq!(repo.get_object(&a, DataType::Blob).unwrap(), bv("aaa"));
    assert_eq!(repo.get_object(&b, DataType::Blob).unwrap(), bv("bbb"));
}

#[test]
fn kind_integrity_mismatch_fails() {
    let mut repo = Ugit::default();
    let oid = repo.hash(&bv("content"), DataType::Blob).unwrap();
    match repo.get_object(&oid, DataType::Tree) {
        Err(DateErr::ContentMisMatch(_)) => {}
        _ => panic!("expected a kind mismatch"),
    }
    match repo.get_object(&oid, DataType::Commit) {
        Err(DateErr::ContentMisMatch(_)) => {}
        _ => panic!("expected a kind mismatch"),
    }
}

#[test]
fn kind_integrity_wildcard_succeeds() {
    let mut repo = Ugit::default();
    let oid = repo.hash(&bv("content"), DataType::Tree).unwrap();
    assert_eq!(repo.get_object(&oid, DataType::Any).unwrap(), bv("content"));
}

#[test]
fn missing_object_reports_io() {
    let repo = Ugit::default();
    match repo.get_object(&bv("no-such-oid"), DataType::Any) {
        Err(DateErr::Io(_)) => {}
        _ => panic!("expected a missing-object error"),
    }
    assert!(!repo.objects_exists(&bv("no-such-oid")));
}

#[test]
fn object_exists_after_hash() {
    let mut repo = Ugit::default();
    let oid = repo.hash(&bv("x"), DataType::Blob).unwrap();
    assert!(repo.objects_exists(&oid));
}

#[test]
fn refs_direct_and_symbolic() {
    let mut repo = Ugit::default();
    repo.put_ref_raw(bv("refs/heads/master"), bv("1234"));
    repo.put_ref_raw(bv("HEAD"), bv("ref: refs/heads/master"));
    // non-recursive read sees the symbolic pointer itself
    let head = repo.get_ref(&bv("HEAD"), false).unwrap();
    assert!(head.symbolic);
    assert_eq!(head.value, bv("refs/heads/master"));
    // recursive read follows it
    let head = repo.get_ref_recursive(&bv("HEAD")).unwrap();
    assert!(!head.symbolic);
    assert_eq!(head.value, bv("1234"));
}

#[test]
fn refs_cycle_resolves_empty() {
    let mut repo = Ugit::default();
    repo.put_ref_raw(bv("a"), bv("ref: b"));
    repo.put_ref_raw(bv("b"), bv("ref: a"));
    assert!(repo.get_ref_if_not_empty(&bv("a")).is_none());
}

#[test]
fn refs_missing_resolves_empty() {
    let repo = Ugit::default();
    let v = repo.get_ref_recursive(&bv("nowhere")).unwrap();
    assert!(!v.symbolic);
    assert!(v.value.is_empty());
}

#[test]
fn update_ref_through_symbolic_head() {
    let mut repo = Ugit::default();
    repo.init_repo();
    repo.reset(bv("abcd"));
    // HEAD is symbolic: the update landed on the branch
    let branch = repo.get_ref(&bv("refs/heads/master"), false).unwrap();
    assert_eq!(branch.value, bv("abcd"));
    let head = repo.get_ref_recursive(&bv("HEAD")).unwrap();
    assert_eq!(head.value, bv("abcd"));
}

#[test]
fn delete_ref_removes() {
    let mut repo = Ugit::default();
    repo.put_ref_raw(bv("MERGE_HEAD"), bv("beef"));
    assert!(repo.get_ref_if_not_empty(&bv("MERGE_HEAD")).is_some());
    repo.delete_ref(&bv("MERGE_HEAD"), true).unwrap();
    assert!(repo.get_ref_if_not_empty(&bv("MERGE_HEAD")).is_none());
}

#[test]
fn get_oid_resolution_order() {
    let mut repo = Ugit::default();
    repo.put_ref_raw(bv("refs/tags/v1"), bv("tagoid"));
    repo.put_ref_raw(bv("refs/heads/dev"), bv("devoid"));
    assert_eq!(repo.get_oid(&bv("v1")), bv("tagoid"));
    assert_eq!(repo.get_oid(&bv("dev")), bv("devoid"));
    // an unknown name falls back to itself as a literal id
    assert_eq!(repo.get_oid(&bv("0123abcd")), bv("0123abcd"));
}

#[test]
fn iter_refs_prefix_lists_pseudo_and_named() {
    let mut repo = Ugit::default();
    repo.put_ref_raw(bv("refs/heads/a"), bv("1"));
    repo.put_ref_raw(bv("refs/heads/b"), bv("2"));
    repo.put_ref_raw(bv("refs/tags/t"), bv("3"));
    let all = repo.iter_refs();
    assert_eq!(all[0], bv("HEAD"));
    assert_eq!(all[1], bv("MERGE_HEAD"));
    assert!(all.contains(&bv("refs/heads/a")));
    assert!(all.contains(&bv("refs/tags/t")));
    let heads = repo.iter_refs_prefix(&bv("refs/heads/"));
    assert_eq!(heads, vec![bv("refs/heads/a"), bv("refs/heads/b")]);
}

#[test]
fn iter_branch_names_strips_prefix() {
    let mut repo = Ugit::default();
    repo.put_ref_raw(bv("refs/heads/alpha"), bv("1"));
    repo.put_ref_raw(bv("refs/heads/beta"), bv("2"));
    assert_eq!(repo.iter_branch_names(), vec![bv("alpha"), bv("beta")]);
}

#[test]
fn branch_and_tag_creation() {
    let mut repo = Ugit::default();
    repo.create_branch(&bv("feature"), &bv("0000"));
    assert!(repo.is_branch(&bv("feature")));
    assert!(!repo.is_branch(&bv("other")));
    repo.create_tag(&bv("0000"), &bv("v1"));
    assert_eq!(repo.get_oid(&bv("v1")), bv("0000"));
}

#[test]
fn get_branch_name_reads_symbolic_head() {
    let mut repo = Ugit::default();
    repo.init_repo();
    assert_eq!(repo.get_branch_name().unwrap(), bv("master"));
    // a detached HEAD has no branch name
    repo.put_ref_raw(bv("HEAD"), bv("abcd"));
    assert!(repo.get_branch_name().is_none());
}

#[test]
fn change_git_dir_swaps() {
    let mut repo = Ugit::default();
    let old = repo.change_git_dir(bv("elsewhere/.rgit"));
    assert_eq!(old, bv(".rgit"));
    let back = repo.change_git_dir(old);
    assert_eq!(back, bv("elsewhere/.rgit"));
}
