//! The porcelain layer: commits and their text, tree objects, the
//! commit graph, staging and merging.
use vstd::prelude::*;

use crate::bytemap::ByteMap;
use crate::bytes::{append_bytes, bytes_clone, bytes_eq, is_prefix_of, lex_lt, starts_with, subvec,
    views_of};
use crate::codec::{commit_text, concat_all, env_content, env_kind, envelope, kind_of_tag, lines_of, parent_prefix,
    parent_prefix_vec, parent_run, parse_commit, parse_tree_line, split_lines, split_tree_line,
    tag_of, tree_line, tree_prefix, tree_prefix_vec, tree_text};
use crate::digest::{hex_str, sha1_of};
use crate::data::{head_name, head_vec, heads_prefix, heads_prefix_vec, merge_head_name,
    merge_head_vec, ref_fuel, refs_slash, refs_slash_vec, resolve_ref, tags_prefix,
    tags_prefix_vec, DataType, DateErr, RefValue, Ugit};

verus! {

/// A parsed commit object: its tree, its parents in recorded order,
/// and its message.
pub struct Commit {
    pub tree: Option<Vec<u8>>,
    pub parents: Vec<Vec<u8>>,
    pub message: Option<Vec<u8>>,
}

/// A commit as its mathematical content: tree id, parent ids, message.
pub open spec fn commit_view(c: Commit) -> (Option<Seq<u8>>, Seq<Seq<u8>>, Seq<u8>) {
    (
        match c.tree {
            Some(t) => Some(t@),
            None => None,
        },
        views_of(c.parents@),
        match c.message {
            Some(m) => m@,
            None => Seq::empty(),
        },
    )
}

/// `parent_run` counts exactly the unbroken stretch of parent lines.
proof fn lemma_parent_run_val(lines: Seq<Seq<u8>>, i: int, k: int)
    requires
        0 <= i,
        0 <= k,
        i + k <= lines.len(),
        forall|j: int| i <= j < i + k ==> is_prefix_of(parent_prefix(), #[trigger] lines[j]),
        i + k == lines.len() || !is_prefix_of(parent_prefix(), lines[i + k]),
    ensures
        parent_run(lines, i) == k,
    decreases k,
{
    if k == 0 {
    } else {
        assert(is_prefix_of(parent_prefix(), lines[i]));
        lemma_parent_run_val(lines, i + 1, k - 1);
    }
}

impl Ugit {
    /// Read and parse the commit stored under `oid`; `None` when the
    /// object is missing or is no commit.
    pub fn get_commit(&self, oid: &Vec<u8>) -> (r: Option<Commit>)
        requires
            self.inv(),
        ensures
            Self::get_object_ok(self.objects_map(), oid@, DataType::Commit) ==> (r matches Some(c)
                && commit_view(c) == parse_commit(env_content(self.objects_map()[oid@]))),
            !Self::get_object_ok(self.objects_map(), oid@, DataType::Commit) ==> r is None,
    {
        let content = match self.get_object(oid, DataType::Commit) {
            Ok(content) => content,
            Err(_) => {
                return None;
            },
        };
        let ghost spec_lines = lines_of(content@);
        let lines = split_lines(&content);
        proof {
            assert(views_of(lines@) == spec_lines);
        }
        let tree_pref = tree_prefix_vec();
        let tree: Option<Vec<u8>> = if lines.len() > 0 && starts_with(&lines[0], &tree_pref) {
            proof {
                assert(views_of(lines@)[0] == lines@[0]@);
            }
            let t = subvec(&lines[0], 5, lines[0].len());
            proof {
                assert(t@ =~= spec_lines[0].skip(tree_prefix().len() as int));
            }
            Some(t)
        } else {
            proof {
                if spec_lines.len() > 0 {
                    assert(views_of(lines@)[0] == lines@[0]@);
                }
            }
            None
        };
        let parent_pref = parent_prefix_vec();
        let n = lines.len();
        let mut parents: Vec<Vec<u8>> = Vec::new();
        let mut i: usize = 1;
        proof {
            assert(views_of(parents@) =~= Seq::new(0nat, |j: int| spec_lines[1 + j].skip(
                parent_prefix().len() as int,
            )));
        }
        loop
            invariant
                self.inv(),
                n == lines@.len(),
                views_of(lines@) == spec_lines,
                parent_pref@ == parent_prefix(),
                1 <= i,
                i <= n || (i == 1 && n == 0),
                forall|j: int|
                    1 <= j < i ==> is_prefix_of(parent_prefix(), #[trigger] spec_lines[j]),
                views_of(parents@) == Seq::new((i - 1) as nat, |j: int| spec_lines[1 + j].skip(
                    parent_prefix().len() as int,
                )),
            ensures
                i == n || (i < n && !is_prefix_of(parent_prefix(), spec_lines[i as int])) || (i == 1
                    && n == 0),
            decreases n - i,
        {
            if i >= n {
                break ;
            }
            proof {
                assert(views_of(lines@)[i as int] == lines@[i as int]@);
            }
            if !starts_with(&lines[i], &parent_pref) {
                break ;
            }
            let p = subvec(&lines[i], 7, lines[i].len());
            let ghost prev_vec = parents@;
            parents.push(p);
            proof {
                assert(lines@[i as int]@ == spec_lines[i as int]);
                assert(p@ =~= spec_lines[i as int].skip(parent_prefix().len() as int));
                crate::bytes::lemma_views_of_push(prev_vec, parents@[parents@.len() - 1]);
                assert(views_of(parents@) =~= Seq::new(i as nat, |j: int| spec_lines[1 + j].skip(
                    parent_prefix().len() as int,
                )));
            }
            i += 1;
        }
        proof {
            if n == 0 && i == 1 {
                assert(parent_run(spec_lines, 1) == 0);
            } else {
                lemma_parent_run_val(spec_lines, 1, i - 1);
            }
            assert(parent_run(spec_lines, 1) == i - 1);
        }
        // one line is consumed by the failed parent test, then the
        // message begins
        let mut msg: Vec<u8> = Vec::new();
        let mut j: usize = if i < n {
            i + 1
        } else {
            n
        };
        let ghost start = j as int;
        proof {
            assert(msg@ + concat_all(spec_lines.skip(start)) =~= concat_all(spec_lines.skip(start)));
        }
        while j < n
            invariant
                n == lines@.len(),
                views_of(lines@) == spec_lines,
                start <= j <= n,
                msg@ + concat_all(spec_lines.skip(j as int)) == concat_all(spec_lines.skip(start)),
            decreases n - j,
        {
            proof {
                assert(views_of(lines@)[j as int] == lines@[j as int]@);
            }
            let ghost msg0 = msg@;
            append_bytes(&mut msg, &lines[j]);
            proof {
                let rest = spec_lines.skip(j as int);
                assert(rest[0] == spec_lines[j as int]);
                assert(rest.skip(1) =~= spec_lines.skip(j as int + 1));
                assert(concat_all(rest) == rest[0] + concat_all(rest.skip(1)));
                assert(msg@ + concat_all(spec_lines.skip(j as int + 1)) =~= msg0 + concat_all(
                    spec_lines.skip(j as int),
                ));
            }
            j += 1;
        }
        proof {
            assert(spec_lines.skip(n as int) =~= Seq::<Seq<u8>>::empty());
            assert(msg@ + concat_all(spec_lines.skip(n as int)) =~= msg@);
        }
        Some(Commit { tree, parents, message: Some(msg) })
    }
}

/// The branch HEAD points at in a fresh repository.
pub open spec fn master_branch_ref() -> Seq<u8> {
    heads_prefix() + seq![109u8, 97u8, 115u8, 116u8, 101u8, 114u8]  // "refs/heads/master"
}

pub fn master_branch_ref_vec() -> (r: Vec<u8>)
    ensures
        r@ == master_branch_ref(),
{
    let mut r = heads_prefix_vec();
    r.push(109);
    r.push(97);
    r.push(115);
    r.push(116);
    r.push(101);
    r.push(114);
    proof {
        assert(r@ =~= master_branch_ref());
    }
    r
}

/// What a name resolves to through the reference store.
pub open spec fn resolved_value(refs: Map<Seq<u8>, Seq<u8>>, name: Seq<u8>) -> Seq<u8> {
    resolve_ref(refs, name, true, ref_fuel(refs)).2
}

/// The object id a user-supplied name denotes: the first of the name
/// itself, "refs/<name>", "refs/tags/<name>" and "refs/heads/<name>"
/// that resolves to something non-empty, or the name taken as a
/// literal id.
pub open spec fn get_oid_spec(refs: Map<Seq<u8>, Seq<u8>>, name: Seq<u8>) -> Seq<u8> {
    if resolved_value(refs, name).len() > 0 {
        resolved_value(refs, name)
    } else if resolved_value(refs, refs_slash() + name).len() > 0 {
        resolved_value(refs, refs_slash() + name)
    } else if resolved_value(refs, tags_prefix() + name).len() > 0 {
        resolved_value(refs, tags_prefix() + name)
    } else if resolved_value(refs, heads_prefix() + name).len() > 0 {
        resolved_value(refs, heads_prefix() + name)
    } else {
        name
    }
}

impl Ugit {
    /// Set up a fresh repository: HEAD points symbolically at the
    /// master branch.
    pub fn init_repo(&mut self)
        requires
            old(self).inv(),
        ensures
            final(self).inv(),
            final(self).refs_map() == old(self).refs_map().insert(
                old(self).ref_target(head_name(), true),
                crate::data::ref_content(true, master_branch_ref()),
            ),
            final(self).objects_map() == old(self).objects_map(),
            final(self).index_map() == old(self).index_map(),
            final(self).git_dir_view() == old(self).git_dir_view(),
    {
        let head = head_vec();
        let master = master_branch_ref_vec();
        self.update_ref(&head, RefValue::symbolic(master), true);
    }

    /// Resolve a user-supplied name to an object id.
    pub fn get_oid(&self, name: &Vec<u8>) -> (r: Vec<u8>)
        requires
            self.inv(),
        ensures
            r@ == get_oid_spec(self.refs_map(), name@),
    {
        if let Some(v) = self.try_resolve(name) {
            return v;
        }
        let mut under_refs = refs_slash_vec();
        append_bytes(&mut under_refs, name);
        if let Some(v) = self.try_resolve(&under_refs) {
            return v;
        }
        let mut under_tags = tags_prefix_vec();
        append_bytes(&mut under_tags, name);
        if let Some(v) = self.try_resolve(&under_tags) {
            return v;
        }
        let mut under_heads = heads_prefix_vec();
        append_bytes(&mut under_heads, name);
        if let Some(v) = self.try_resolve(&under_heads) {
            return v;
        }
        bytes_clone(name)
    }

    /// Resolve one candidate name, keeping a non-empty value only.
    fn try_resolve(&self, name: &Vec<u8>) -> (r: Option<Vec<u8>>)
        requires
            self.inv(),
        ensures
            resolved_value(self.refs_map(), name@).len() > 0 ==> (r matches Some(v) && v@
                == resolved_value(self.refs_map(), name@)),
            resolved_value(self.refs_map(), name@).len() == 0 ==> r is None,
    {
        match self.get_ref_if_not_empty(name) {
            Some(v) => Some(v.value),
            None => None,
        }
    }

    /// Point "refs/tags/<tag>" at an object.
    pub fn create_tag(&mut self, oid: &Vec<u8>, tag: &Vec<u8>)
        requires
            old(self).inv(),
        ensures
            final(self).inv(),
            final(self).refs_map() == old(self).refs_map().insert(
                old(self).ref_target(tags_prefix() + tag@, true),
                oid@,
            ),
            final(self).objects_map() == old(self).objects_map(),
            final(self).index_map() == old(self).index_map(),
            final(self).git_dir_view() == old(self).git_dir_view(),
    {
        let mut name = tags_prefix_vec();
        append_bytes(&mut name, tag);
        proof {
            assert(crate::data::ref_content(false, oid@) == oid@);
        }
        self.update_ref(&name, RefValue::direct(bytes_clone(oid)), true);
    }

    /// Does `branch` name an existing branch?
    pub fn is_branch(&self, branch: &Vec<u8>) -> (r: bool)
        requires
            self.inv(),
        ensures
            r == (resolved_value(self.refs_map(), heads_prefix() + branch@).len() > 0),
    {
        let mut name = heads_prefix_vec();
        append_bytes(&mut name, branch);
        match self.get_ref_if_not_empty(&name) {
            Some(_) => true,
            None => false,
        }
    }

    /// Point "refs/heads/<name>" at an object.
    pub fn create_branch(&mut self, name: &Vec<u8>, oid: &Vec<u8>)
        requires
            old(self).inv(),
        ensures
            final(self).inv(),
            final(self).refs_map() == old(self).refs_map().insert(
                old(self).ref_target(heads_prefix() + name@, true),
                oid@,
            ),
            final(self).objects_map() == old(self).objects_map(),
            final(self).index_map() == old(self).index_map(),
            final(self).git_dir_view() == old(self).git_dir_view(),
    {
        let mut ref_name = heads_prefix_vec();
        append_bytes(&mut ref_name, name);
        self.update_ref(&ref_name, RefValue::direct(bytes_clone(oid)), true);
    }

    /// The branch HEAD points at, if HEAD is symbolic and points under
    /// "refs/heads/".
    pub fn get_branch_name(&self) -> (r: Option<Vec<u8>>)
        requires
            self.inv(),
        ensures
            ({
                let s = resolve_ref(self.refs_map(), head_name(), false, ref_fuel(self.refs_map()));
                if s.1 && is_prefix_of(heads_prefix(), s.2) {
                    r matches Some(b) && b@ == s.2.skip(heads_prefix().len() as int)
                } else {
                    r is None
                }
            }),
    {
        let head = head_vec();
        let ref_value = match self.get_ref(&head, false) {
            Some(v) => v,
            None => {
                return None;
            },
        };
        if !ref_value.symbolic {
            return None;
        }
        let prefix = heads_prefix_vec();
        if starts_with(&ref_value.value, &prefix) {
            let b = subvec(&ref_value.value, prefix.len(), ref_value.value.len());
            Some(b)
        } else {
            None
        }
    }

    /// Move HEAD (or the branch it points at) to `oid`.
    pub fn reset(&mut self, oid: Vec<u8>)
        requires
            old(self).inv(),
        ensures
            final(self).inv(),
            final(self).refs_map() == old(self).refs_map().insert(
                old(self).ref_target(head_name(), true),
                oid@,
            ),
            final(self).objects_map() == old(self).objects_map(),
            final(self).index_map() == old(self).index_map(),
            final(self).git_dir_view() == old(self).git_dir_view(),
    {
        let head = head_vec();
        self.update_ref(&head, RefValue { symbolic: false, value: oid }, true);
    }
}

/// The digest never maps two different byte sequences to one id.
/// True of no real digest in the mathematical sense, but the premise
/// content addressing rests on; stated, never assumed.
pub open spec fn digest_injective() -> bool {
    forall|a: Seq<u8>, b: Seq<u8>| #[trigger] sha1_of(a) == #[trigger] sha1_of(b) ==> a == b
}

/// A path joined under a base directory; an empty base stands for the
/// repository root.
pub open spec fn join_path(base: Seq<u8>, name: Seq<u8>) -> Seq<u8> {
    if base.len() == 0 {
        name
    } else {
        base + seq![47u8] + name
    }
}

pub fn join_path_vec(base: &Vec<u8>, name: &Vec<u8>) -> (r: Vec<u8>)
    ensures
        r@ == join_path(base@, name@),
{
    if base.len() == 0 {
        bytes_clone(name)
    } else {
        let mut r = bytes_clone(base);
        r.push(47);
        append_bytes(&mut r, name);
        proof {
            assert(r@ =~= base@ + seq![47u8] + name@);
        }
        r
    }
}

/// Expanding the tree stored under `oid` into a flat path-to-blob
/// mapping rooted at `base`. Fails when the object is missing or not
/// a tree, when an entry line carries an unknown kind, or when
/// nesting exhausts `fuel` (which only a cyclic store can cause).
pub open spec fn flatten_tree(
    objs: Map<Seq<u8>, Seq<u8>>,
    oid: Seq<u8>,
    base: Seq<u8>,
    fuel: nat,
) -> Option<Map<Seq<u8>, Seq<u8>>>
    decreases fuel, 1int, 0int,
{
    if Ugit::get_object_ok(objs, oid, DataType::Tree) {
        flatten_entries(objs, lines_of(env_content(objs[oid])), base, Map::empty(), fuel)
    } else {
        None
    }
}

/// Fold the entry lines of a tree object into `acc`, later lines
/// overriding earlier ones.
pub open spec fn flatten_entries(
    objs: Map<Seq<u8>, Seq<u8>>,
    lines: Seq<Seq<u8>>,
    base: Seq<u8>,
    acc: Map<Seq<u8>, Seq<u8>>,
    fuel: nat,
) -> Option<Map<Seq<u8>, Seq<u8>>>
    decreases fuel, 0int, lines.len(),
{
    if lines.len() == 0 {
        Some(acc)
    } else {
        let f = parse_tree_line(lines[0]);
        let kind = kind_of_tag(f.0);
        if kind is Blob {
            flatten_entries(objs, lines.skip(1), base, acc.insert(join_path(base, f.2), f.1), fuel)
        } else if kind is Tree {
            if fuel == 0 {
                None
            } else {
                match flatten_tree(objs, f.1, join_path(base, f.2), (fuel - 1) as nat) {
                    Some(sub) => flatten_entries(
                        objs,
                        lines.skip(1),
                        base,
                        acc.union_prefer_right(sub),
                        fuel,
                    ),
                    None => None,
                }
            }
        } else {
            None
        }
    }
}

impl Ugit {
    /// Expand the tree under `oid` into a flat mapping rooted at
    /// `base`; `None` when the store does not hold a well-formed tree
    /// there.
    pub fn get_tree(&self, oid: &Vec<u8>, base: &Vec<u8>) -> (r: Option<ByteMap>)
        requires
            self.inv(),
        ensures
            match flatten_tree(self.objects_map(), oid@, base@, usize::MAX as nat) {
                Some(m) => r matches Some(bm) && bm@ == m && bm.inv(),
                None => r is None,
            },
    {
        self.get_tree_rec(oid, base, usize::MAX)
    }

    /// Expand the tree under `oid` from the repository root.
    pub fn get_tree_in_base(&self, oid: &Vec<u8>) -> (r: Option<ByteMap>)
        requires
            self.inv(),
        ensures
            match flatten_tree(self.objects_map(), oid@, Seq::empty(), usize::MAX as nat) {
                Some(m) => r matches Some(bm) && bm@ == m && bm.inv(),
                None => r is None,
            },
    {
        let base: Vec<u8> = Vec::new();
        self.get_tree_rec(oid, &base, usize::MAX)
    }

    fn get_tree_rec(&self, oid: &Vec<u8>, base: &Vec<u8>, fuel: usize) -> (r: Option<ByteMap>)
        requires
            self.inv(),
        ensures
            match flatten_tree(self.objects_map(), oid@, base@, fuel as nat) {
                Some(m) => r matches Some(bm) && bm@ == m && bm.inv(),
                None => r is None,
            },
        decreases fuel,
    {
        let ghost objs = self.objects_map();
        let content = match self.get_object(oid, DataType::Tree) {
            Ok(content) => content,
            Err(_) => {
                return None;
            },
        };
        proof {
            assert(Ugit::get_object_ok(objs, oid@, DataType::Tree));
            assert(content@ == env_content(objs[oid@]));
        }
        let ghost spec_lines = lines_of(content@);
        let lines = split_lines(&content);
        let mut res = ByteMap::new();
        let n = lines.len();
        let mut i: usize = 0;
        proof {
            assert(spec_lines.skip(0) =~= spec_lines);
        }
        while i < n
            invariant
                self.inv(),
                objs == self.objects_map(),
                n == lines@.len(),
                views_of(lines@) == spec_lines,
                content@ == env_content(objs[oid@]),
                Ugit::get_object_ok(objs, oid@, DataType::Tree),
                spec_lines == lines_of(content@),
                i <= n,
                res.inv(),
                flatten_entries(objs, spec_lines, base@, Map::empty(), fuel as nat)
                    == flatten_entries(objs, spec_lines.skip(i as int), base@, res@, fuel as nat),
            decreases n - i,
        {
            proof {
                assert(views_of(lines@)[i as int] == lines@[i as int]@);
                assert(spec_lines.skip(i as int)[0] == spec_lines[i as int]);
                assert(spec_lines.skip(i as int).skip(1) =~= spec_lines.skip(i as int + 1));
            }
            let fields = split_tree_line(&lines[i]);
            let kind = crate::codec::kind_from_tag(&fields.0);
            match kind {
                DataType::Blob => {
                    let path = join_path_vec(base, &fields.2);
                    res.insert(path, fields.1);
                },
                DataType::Tree => {
                    if fuel == 0 {
                        return None;
                    }
                    let path = join_path_vec(base, &fields.2);
                    match self.get_tree_rec(&fields.1, &path, fuel - 1) {
                        Some(sub) => {
                            let ghost res0 = res@;
                            let m = sub.len();
                            let mut j: usize = 0;
                            proof {
                                sub.lemma_char();
                                crate::bytemap::lemma_map_of_char(sub.kv_seq().take(0));
                                assert(sub.kv_seq().take(0) =~= Seq::<(Seq<u8>, Seq<u8>)>::empty());
                                assert(res@ =~= res0.union_prefer_right(
                                    crate::bytemap::map_of(sub.kv_seq().take(0)),
                                ));
                            }
                            while j < m
                                invariant
                                    m == sub.kv_seq().len(),
                                    j <= m,
                                    res.inv(),
                                    sub.inv(),
                                    res@ == res0.union_prefer_right(
                                        crate::bytemap::map_of(sub.kv_seq().take(j as int)),
                                    ),
                                decreases m - j,
                            {
                                let (k, v) = sub.entry_at(j);
                                let ghost before = res@;
                                res.insert(k, v);
                                proof {
                                    let t1 = sub.kv_seq().take(j as int + 1);
                                    assert(t1.drop_last() =~= sub.kv_seq().take(j as int));
                                    assert(t1.last() == sub.kv_seq()[j as int]);
                                    assert(res@ =~= res0.union_prefer_right(
                                        crate::bytemap::map_of(t1),
                                    ));
                                }
                                j += 1;
                            }
                            proof {
                                assert(sub.kv_seq().take(m as int) =~= sub.kv_seq());
                                assert(res@ =~= res0.union_prefer_right(sub@));
                            }
                        },
                        None => {
                            return None;
                        },
                    }
                },
                _ => {
                    return None;
                },
            }
            i += 1;
        }
        proof {
            assert(spec_lines.skip(n as int) =~= Seq::<Seq<u8>>::empty());
        }
        Some(res)
    }
}

/// The parent ids a stored commit names; a missing or non-commit
/// object has none.
pub open spec fn commit_parents(objs: Map<Seq<u8>, Seq<u8>>, oid: Seq<u8>) -> Seq<Seq<u8>> {
    if Ugit::get_object_ok(objs, oid, DataType::Commit) {
        parse_commit(env_content(objs[oid])).1
    } else {
        Seq::empty()
    }
}

/// The tree id a stored commit names, if any.
pub open spec fn commit_tree_of(objs: Map<Seq<u8>, Seq<u8>>, oid: Seq<u8>) -> Option<Seq<u8>> {
    if Ugit::get_object_ok(objs, oid, DataType::Commit) {
        parse_commit(env_content(objs[oid])).0
    } else {
        None
    }
}

/// Every parent of every commit lies inside `univ`.
pub open spec fn closed_univ(objs: Map<Seq<u8>, Seq<u8>>, univ: Set<Seq<u8>>) -> bool {
    forall|oid: Seq<u8>, i: int|
        0 <= i < commit_parents(objs, oid).len() ==> univ.contains(
            #[trigger] commit_parents(objs, oid)[i],
        )
}

/// The working state of a traversal is sound: a finite universe that
/// holds the whole queue and is closed under parents.
pub open spec fn trav_ok(
    objs: Map<Seq<u8>, Seq<u8>>,
    queue: Seq<Seq<u8>>,
    univ: Set<Seq<u8>>,
) -> bool {
    &&& univ.finite()
    &&& closed_univ(objs, univ)
    &&& forall|i: int| 0 <= i < queue.len() ==> univ.contains(#[trigger] queue[i])
}

/// The ancestry walk: pop the front of the queue; an unvisited id is
/// emitted, its first parent goes to the front of the queue and the
/// remaining parents to the back.
pub open spec fn trav_spec(
    objs: Map<Seq<u8>, Seq<u8>>,
    queue: Seq<Seq<u8>>,
    visited: Set<Seq<u8>>,
    univ: Set<Seq<u8>>,
) -> Seq<Seq<u8>>
    decreases univ.difference(visited).len(), queue.len(),
    via trav_spec_decreases
{
    if !trav_ok(objs, queue, univ) {
        Seq::empty()
    } else if queue.len() == 0 {
        Seq::empty()
    } else {
        let oid = queue[0];
        let rest = queue.skip(1);
        if visited.contains(oid) {
            trav_spec(objs, rest, visited, univ)
        } else {
            let parents = commit_parents(objs, oid);
            let queue2 = if parents.len() > 0 {
                seq![parents[0]] + rest + parents.skip(1)
            } else {
                rest
            };
            seq![oid] + trav_spec(objs, queue2, visited.insert(oid), univ)
        }
    }
}

#[via_fn]
proof fn trav_spec_decreases(
    objs: Map<Seq<u8>, Seq<u8>>,
    queue: Seq<Seq<u8>>,
    visited: Set<Seq<u8>>,
    univ: Set<Seq<u8>>,
)
{
    if trav_ok(objs, queue, univ) && queue.len() > 0 {
        let oid = queue[0];
        if visited.contains(oid) {
            vstd::set_lib::lemma_len_difference(univ, visited);
        } else {
            assert(univ.contains(oid));
            univ.lemma_set_insert_diff_decreases(visited, oid);
        }
    }
}

/// The ids that can ever be enqueued from the objects of `entries`.
pub open spec fn parents_univ(
    objs: Map<Seq<u8>, Seq<u8>>,
    entries: Seq<(Seq<u8>, Seq<u8>)>,
) -> Set<Seq<u8>>
    decreases entries.len(),
{
    if entries.len() == 0 {
        Set::empty()
    } else {
        parents_univ(objs, entries.drop_last()).union(
            commit_parents(objs, entries.last().0).to_set(),
        )
    }
}

proof fn lemma_parents_univ_finite(objs: Map<Seq<u8>, Seq<u8>>, entries: Seq<(Seq<u8>, Seq<u8>)>)
    ensures
        parents_univ(objs, entries).finite(),
    decreases entries.len(),
{
    if entries.len() > 0 {
        lemma_parents_univ_finite(objs, entries.drop_last());
        vstd::seq_lib::seq_to_set_is_finite(commit_parents(objs, entries.last().0));
    }
}

proof fn lemma_parents_univ_index(
    objs: Map<Seq<u8>, Seq<u8>>,
    entries: Seq<(Seq<u8>, Seq<u8>)>,
    j: int,
)
    requires
        0 <= j < entries.len(),
    ensures
        forall|i: int|
            0 <= i < commit_parents(objs, entries[j].0).len() ==> parents_univ(
                objs,
                entries,
            ).contains(#[trigger] commit_parents(objs, entries[j].0)[i]),
    decreases entries.len(),
{
    let ps = commit_parents(objs, entries[j].0);
    if j == entries.len() - 1 {
        assert forall|i: int| 0 <= i < ps.len() implies parents_univ(objs, entries).contains(
            #[trigger] ps[i],
        ) by {
            assert(ps.contains(ps[i]));
            assert(ps.to_set().contains(ps[i]));
        }
    } else {
        assert(entries.drop_last()[j] == entries[j]);
        lemma_parents_univ_index(objs, entries.drop_last(), j);
    }
}

/// The universe a traversal from `seeds` runs inside.
pub open spec fn trav_univ(u: Ugit, seeds: Seq<Seq<u8>>) -> Set<Seq<u8>> {
    seeds.to_set().union(parents_univ(u.objects_map(), u.objects_seq()))
}

/// The commits-and-parents walk of this repository from `seeds`.
pub open spec fn trav_of(u: Ugit, seeds: Seq<Seq<u8>>) -> Seq<Seq<u8>> {
    trav_spec(u.objects_map(), seeds, Set::empty(), trav_univ(u, seeds))
}

/// The traversal state is sound for any seed set.
pub proof fn lemma_trav_univ_ok(u: Ugit, seeds: Seq<Seq<u8>>)
    requires
        u.inv(),
    ensures
        trav_ok(u.objects_map(), seeds, trav_univ(u, seeds)),
{
    let objs = u.objects_map();
    let univ = trav_univ(u, seeds);
    vstd::seq_lib::seq_to_set_is_finite(seeds);
    lemma_parents_univ_finite(objs, u.objects_seq());
    assert(univ.finite());
    u.lemma_objects_char();
    assert forall|oid: Seq<u8>, i: int|
        0 <= i < commit_parents(objs, oid).len() implies univ.contains(
        #[trigger] commit_parents(objs, oid)[i],
    ) by {
        assert(Ugit::get_object_ok(objs, oid, DataType::Commit));
        assert(objs.contains_key(oid));
        let j = choose|j: int| 0 <= j < u.objects_seq().len() && (#[trigger] u.objects_seq()[j]).0 == oid;
        lemma_parents_univ_index(objs, u.objects_seq(), j);
        assert(parents_univ(objs, u.objects_seq()).contains(commit_parents(objs, oid)[i]));
    }
    assert forall|i: int| 0 <= i < seeds.len() implies univ.contains(#[trigger] seeds[i]) by {
        assert(seeds.contains(seeds[i]));
        assert(seeds.to_set().contains(seeds[i]));
    }
}

impl Ugit {
    /// Walk the ancestry of the given commits: each reachable id once,
    /// first parents before the exploration of side branches.
    pub fn iter_commits_and_parents(&self, oids: Vec<Vec<u8>>) -> (r: Vec<Vec<u8>>)
        requires
            self.inv(),
        ensures
            views_of(r@) == trav_of(*self, views_of(oids@)),
    {
        let ghost seeds = views_of(oids@);
        let ghost objs = self.objects_map();
        let ghost univ = trav_univ(*self, seeds);
        proof {
            lemma_trav_univ_ok(*self, seeds);
        }
        let mut queue = oids;
        let mut visited = crate::byteset::ByteSet::new();
        let mut commits: Vec<Vec<u8>> = Vec::new();
        proof {
            assert(views_of(commits@) =~= Seq::<Seq<u8>>::empty());
            assert(views_of(commits@) + trav_spec(objs, views_of(queue@), visited@, univ)
                =~= trav_of(*self, seeds));
        }
        while queue.len() > 0
            invariant
                self.inv(),
                visited.inv(),
                objs == self.objects_map(),
                trav_ok(objs, views_of(queue@), univ),
                trav_of(*self, seeds) == views_of(commits@) + trav_spec(
                    objs,
                    views_of(queue@),
                    visited@,
                    univ,
                ),
                univ.finite(),
            decreases univ.difference(visited@).len(), queue@.len(),
        {
            let ghost q0 = views_of(queue@);
            let oid = queue.remove(0);
            proof {
                assert(views_of(queue@) =~= q0.skip(1));
                assert(oid@ == q0[0]);
            }
            let ghost rest = views_of(queue@);
            if visited.contains(&oid) {
                proof {
                    assert(trav_spec(objs, q0, visited@, univ) == trav_spec(
                        objs,
                        rest,
                        visited@,
                        univ,
                    ));
                    assert(forall|i: int|
                        0 <= i < rest.len() ==> univ.contains(#[trigger] rest[i]));
                }
            } else {
                let ghost vis0 = visited@;
                match self.get_commit(&oid) {
                    Some(c) => {
                        proof {
                            assert(views_of(c.parents@) == commit_parents(objs, oid@));
                        }
                        let np = c.parents.len();
                        if np > 0 {
                            queue.insert(0, bytes_clone(&c.parents[0]));
                            proof {
                                assert(views_of(c.parents@)[0] == c.parents@[0]@);
                                assert(views_of(queue@) =~= seq![commit_parents(objs, oid@)[0]]
                                    + rest);
                            }
                            let mut k: usize = 1;
                            while k < np
                                invariant
                                    1 <= k <= np,
                                    np == c.parents@.len(),
                                    views_of(c.parents@) == commit_parents(objs, oid@),
                                    views_of(queue@) == seq![commit_parents(objs, oid@)[0]] + rest
                                        + commit_parents(objs, oid@).skip(1).take(k - 1),
                                decreases np - k,
                            {
                                let ghost qv = views_of(queue@);
                                let ghost prev_vec = queue@;
                                queue.push(bytes_clone(&c.parents[k]));
                                proof {
                                    crate::bytes::lemma_views_of_push(
                                        prev_vec,
                                        queue@[queue@.len() - 1],
                                    );
                                    assert(views_of(c.parents@)[k as int] == c.parents@[k as int]@);
                                    assert(commit_parents(objs, oid@).skip(1).take(k as int)
                                        =~= commit_parents(objs, oid@).skip(1).take(k - 1).push(
                                        commit_parents(objs, oid@)[k as int],
                                    ));
                                    assert(views_of(queue@) =~= qv.push(
                                        commit_parents(objs, oid@)[k as int],
                                    ));
                                }
                                k += 1;
                            }
                            proof {
                                assert(commit_parents(objs, oid@).skip(1).take(np - 1)
                                    =~= commit_parents(objs, oid@).skip(1));
                            }
                        }
                    },
                    None => {
                        proof {
                            assert(commit_parents(objs, oid@) == Seq::<Seq<u8>>::empty());
                        }
                    },
                }
                let ghost prev_commits = commits@;
                commits.push(bytes_clone(&oid));
                visited.insert(bytes_clone(&oid));
                proof {
                    crate::bytes::lemma_views_of_push(prev_commits, commits@[commits@.len() - 1]);
                    let parents = commit_parents(objs, oid@);
                    let queue2 = if parents.len() > 0 {
                        seq![parents[0]] + rest + parents.skip(1)
                    } else {
                        rest
                    };
                    assert(views_of(queue@) =~= queue2);
                    assert(trav_spec(objs, q0, vis0, univ) == seq![oid@] + trav_spec(
                        objs,
                        queue2,
                        vis0.insert(oid@),
                        univ,
                    ));
                    assert(views_of(commits@) + trav_spec(objs, views_of(queue@), visited@, univ)
                        =~= trav_of(*self, seeds));
                    // the new queue still sits inside the universe
                    assert forall|i: int| 0 <= i < queue2.len() implies univ.contains(
                        #[trigger] queue2[i],
                    ) by {
                        if parents.len() > 0 {
                            if i == 0 {
                                assert(queue2[0] == parents[0]);
                            } else if i <= rest.len() {
                                assert(queue2[i] == rest[i - 1]);
                                assert(q0[i] == rest[i - 1]);
                            } else {
                                assert(queue2[i] == parents.skip(1)[i - rest.len() - 1]);
                                assert(parents.skip(1)[i - rest.len() - 1] == parents[i
                                    - rest.len()]);
                            }
                        } else {
                            assert(queue2[i] == q0[i + 1]);
                        }
                    }
                    univ.lemma_set_insert_diff_decreases(vis0, oid@);
                }
            }
        }
        proof {
            assert(views_of(queue@).len() == 0);
            assert(trav_spec(objs, views_of(queue@), visited@, univ) == Seq::<Seq<u8>>::empty());
            assert(views_of(commits@) + Seq::<Seq<u8>>::empty() =~= views_of(commits@));
        }
        commits
    }
}


/// A traversal starts with its first seed.
pub proof fn lemma_trav_first(u: Ugit, seeds: Seq<Seq<u8>>)
    requires
        u.inv(),
        seeds.len() > 0,
    ensures
        trav_of(u, seeds).len() > 0,
        trav_of(u, seeds)[0] == seeds[0],
        trav_of(u, seeds).contains(seeds[0]),
{
    lemma_trav_univ_ok(u, seeds);
    let objs = u.objects_map();
    let univ = trav_univ(u, seeds);
    assert(!Set::<Seq<u8>>::empty().contains(seeds[0]));
    assert(trav_of(u, seeds) == seq![seeds[0]] + trav_spec(
        objs,
        (if commit_parents(objs, seeds[0]).len() > 0 {
            seq![commit_parents(objs, seeds[0])[0]] + seeds.skip(1) + commit_parents(
                objs,
                seeds[0],
            ).skip(1)
        } else {
            seeds.skip(1)
        }),
        Set::empty().insert(seeds[0]),
        univ,
    ));
    assert(trav_of(u, seeds)[0] == seeds[0]);
}

/// Every existing commit is an ancestor of itself: the ancestry walk
/// of `x` begins with `x`.
pub proof fn lemma_ancestor_self_contained(u: Ugit, x: Seq<u8>)
    requires
        u.inv(),
    ensures
        trav_of(u, seq![x]).contains(x),
{
    lemma_trav_first(u, seq![x]);
}

/// The first id of one walk that also lies in another's ancestor set.
pub open spec fn first_common(s: Seq<Seq<u8>>, anc: Set<Seq<u8>>) -> Option<Seq<u8>>
    decreases s.len(),
{
    if s.len() == 0 {
        None
    } else if anc.contains(s[0]) {
        Some(s[0])
    } else {
        first_common(s.skip(1), anc)
    }
}

/// What `get_merge_base` returns.
pub open spec fn merge_base_spec(u: Ugit, oid1: Seq<u8>, oid2: Seq<u8>) -> Option<Seq<u8>> {
    first_common(trav_of(u, seq![oid2]), trav_of(u, seq![oid1]).to_set())
}

/// When one commit already lies in the other's ancestry, the merge
/// base is that commit itself; in particular the merge base of a
/// commit with itself is the commit.
pub proof fn lemma_merge_base_of_descendant(u: Ugit, a: Seq<u8>, b: Seq<u8>)
    requires
        u.inv(),
        trav_of(u, seq![a]).contains(b),
    ensures
        merge_base_spec(u, a, b) == Some(b),
{
    lemma_trav_first(u, seq![b]);
    let s = trav_of(u, seq![b]);
    assert(trav_of(u, seq![a]).to_set().contains(b));
    assert(first_common(s, trav_of(u, seq![a]).to_set()) == Some(s[0]));
}

impl Ugit {
    /// The nearest common ancestor of two commits, as the ancestry
    /// walk of `oid2` finds it inside the ancestor set of `oid1`.
    pub fn get_merge_base(&self, oid1: &Vec<u8>, oid2: &Vec<u8>) -> (r: Option<Vec<u8>>)
        requires
            self.inv(),
        ensures
            match merge_base_spec(*self, oid1@, oid2@) {
                Some(m) => r matches Some(v) && v@ == m,
                None => r is None,
            },
    {
        let mut seed1: Vec<Vec<u8>> = Vec::new();
        seed1.push(bytes_clone(oid1));
        proof {
            assert(views_of(seed1@) =~= seq![oid1@]);
        }
        let commits1 = self.iter_commits_and_parents(seed1);
        let ghost t1 = trav_of(*self, seq![oid1@]);
        let mut anc = crate::byteset::ByteSet::new();
        let n1 = commits1.len();
        let mut i: usize = 0;
        proof {
            assert(t1.take(0).to_set() =~= Set::<Seq<u8>>::empty()) by {
                assert forall|y: Seq<u8>| !(#[trigger] t1.take(0).contains(y)) by {}
            }
        }
        while i < n1
            invariant
                anc.inv(),
                n1 == commits1@.len(),
                views_of(commits1@) == t1,
                i <= n1,
                anc@ == t1.take(i as int).to_set(),
            decreases n1 - i,
        {
            proof {
                assert(views_of(commits1@)[i as int] == commits1@[i as int]@);
            }
            anc.insert(bytes_clone(&commits1[i]));
            proof {
                let t0 = t1.take(i as int);
                let tn = t1.take(i as int + 1);
                assert(tn =~= t0.push(t1[i as int]));
                assert(tn.to_set() =~= t0.to_set().insert(t1[i as int])) by {
                    assert forall|y: Seq<u8>| #[trigger] tn.to_set().contains(y) implies t0.to_set().insert(
                        t1[i as int],
                    ).contains(y) by {
                        assert(tn.contains(y));
                        let j = choose|j: int| 0 <= j < tn.len() && tn[j] == y;
                        if j < i as int {
                            assert(t0[j] == y);
                            assert(t0.contains(y));
                        }
                    }
                    assert forall|y: Seq<u8>| #[trigger] t0.to_set().insert(
                        t1[i as int],
                    ).contains(y) implies tn.to_set().contains(y) by {
                        if y == t1[i as int] {
                            assert(tn[i as int] == y);
                            assert(tn.contains(y));
                        } else {
                            assert(t0.contains(y));
                            let j = choose|j: int| 0 <= j < t0.len() && t0[j] == y;
                            assert(tn[j] == y);
                            assert(tn.contains(y));
                        }
                    }
                }
            }
            i += 1;
        }
        proof {
            assert(t1.take(n1 as int) =~= t1);
        }
        let mut seed2: Vec<Vec<u8>> = Vec::new();
        seed2.push(bytes_clone(oid2));
        proof {
            assert(views_of(seed2@) =~= seq![oid2@]);
        }
        let commits2 = self.iter_commits_and_parents(seed2);
        let ghost t2 = trav_of(*self, seq![oid2@]);
        let n2 = commits2.len();
        proof {
            assert(t2.len() == commits2@.len());
            assert(t2.skip(0) =~= t2);
        }
        let mut j: usize = 0;
        while j < n2
            invariant
                anc.inv(),
                n2 == commits2@.len(),
                n2 == t2.len(),
                views_of(commits2@) == t2,
                j <= n2,
                anc@ == t1.to_set(),
                t1 == trav_of(*self, seq![oid1@]),
                t2 == trav_of(*self, seq![oid2@]),
                first_common(t2, t1.to_set()) == first_common(t2.skip(j as int), t1.to_set()),
            decreases n2 - j,
        {
            proof {
                assert(views_of(commits2@)[j as int] == commits2@[j as int]@);
                assert(t2.skip(j as int)[0] == t2[j as int]);
                assert(t2.skip(j as int).skip(1) =~= t2.skip(j as int + 1));
            }
            if anc.contains(&commits2[j]) {
                proof {
                    assert(t1.to_set().contains(t2[j as int]));
                    assert(first_common(t2.skip(j as int), t1.to_set()) == Some(t2[j as int]));
                    assert(merge_base_spec(*self, oid1@, oid2@) == Some(t2[j as int]));
                }
                return Some(bytes_clone(&commits2[j]));
            }
            j += 1;
        }
        proof {
            assert(t2.skip(n2 as int) =~= Seq::<Seq<u8>>::empty());
            assert(first_common(Seq::<Seq<u8>>::empty(), t1.to_set()) is None);
            assert(merge_base_spec(*self, oid1@, oid2@) is None);
        }
        None
    }

    /// Does the ancestry of `commit` contain `maybe_ancesotr`?
    pub fn is_ancestor_of(&self, commit: &Vec<u8>, maybe_ancesotr: &Vec<u8>) -> (r: bool)
        requires
            self.inv(),
        ensures
            r == trav_of(*self, seq![commit@]).contains(maybe_ancesotr@),
    {
        let mut seed: Vec<Vec<u8>> = Vec::new();
        seed.push(bytes_clone(commit));
        proof {
            assert(views_of(seed@) =~= seq![commit@]);
        }
        let commits = self.iter_commits_and_parents(seed);
        let ghost t = trav_of(*self, seq![commit@]);
        let n = commits.len();
        proof {
            assert(t.len() == commits@.len());
        }
        let mut i: usize = 0;
        while i < n
            invariant
                n == commits@.len(),
                n == t.len(),
                views_of(commits@) == t,
                t == trav_of(*self, seq![commit@]),
                i <= n,
                forall|j: int| 0 <= j < i ==> t[j] != maybe_ancesotr@,
            decreases n - i,
        {
            proof {
                assert(views_of(commits@)[i as int] == commits@[i as int]@);
            }
            if bytes_eq(&commits[i], maybe_ancesotr) {
                proof {
                    assert(t[i as int] == maybe_ancesotr@);
                    assert(t.contains(maybe_ancesotr@));
                }
                return true;
            }
            i += 1;
        }
        proof {
            if t.contains(maybe_ancesotr@) {
                let j = choose|j: int| 0 <= j < t.len() && t[j] == maybe_ancesotr@;
                assert(false);
            }
        }
        false
    }
}

/// The object ids a tree walk collects: the tree itself, its blobs,
/// and its subtrees, skipping anything already seen.
pub open spec fn tree_objs(
    objs: Map<Seq<u8>, Seq<u8>>,
    oid: Seq<u8>,
    visited: Set<Seq<u8>>,
    fuel: nat,
) -> Set<Seq<u8>>
    decreases fuel, 1int, 0int,
{
    let v2 = visited.insert(oid);
    if Ugit::get_object_ok(objs, oid, DataType::Tree) {
        tree_objs_lines(objs, lines_of(env_content(objs[oid])), v2, fuel)
    } else {
        v2
    }
}

pub open spec fn tree_objs_lines(
    objs: Map<Seq<u8>, Seq<u8>>,
    lines: Seq<Seq<u8>>,
    visited: Set<Seq<u8>>,
    fuel: nat,
) -> Set<Seq<u8>>
    decreases fuel, 0int, lines.len(),
{
    if lines.len() == 0 {
        visited
    } else {
        let f = parse_tree_line(lines[0]);
        let kind = kind_of_tag(f.0);
        let v2 = if visited.contains(f.1) {
            visited
        } else if kind is Tree {
            if fuel == 0 {
                visited
            } else {
                tree_objs(objs, f.1, visited, (fuel - 1) as nat)
            }
        } else {
            visited.insert(f.1)
        };
        tree_objs_lines(objs, lines.skip(1), v2, fuel)
    }
}

/// The objects needed to reconstruct a walk of commits: each commit,
/// its tree's closure, gathered in walk order.
pub open spec fn commits_objs(
    objs: Map<Seq<u8>, Seq<u8>>,
    commits: Seq<Seq<u8>>,
    visited: Set<Seq<u8>>,
) -> Set<Seq<u8>>
    decreases commits.len(),
{
    if commits.len() == 0 {
        visited
    } else {
        let oid = commits[0];
        let v2 = match commit_tree_of(objs, oid) {
            Some(t) => if !visited.contains(t) {
                tree_objs(objs, t, visited, usize::MAX as nat)
            } else {
                visited
            },
            None => visited,
        };
        commits_objs(objs, commits.skip(1), v2.insert(oid))
    }
}

/// The full object closure of the commits reachable from `seeds`.
pub open spec fn objects_closure(u: Ugit, seeds: Seq<Seq<u8>>) -> Set<Seq<u8>> {
    commits_objs(u.objects_map(), trav_of(u, seeds), Set::empty())
}

impl Ugit {
    /// Walk one tree object, adding every id reachable under it.
    fn iter_objects_in_tree(&self, oid: &Vec<u8>, visited: &mut crate::byteset::ByteSet, fuel: usize)
        requires
            self.inv(),
            old(visited).inv(),
        ensures
            final(visited).inv(),
            final(visited)@ == tree_objs(self.objects_map(), oid@, old(visited)@, fuel as nat),
        decreases fuel,
    {
        let ghost objs = self.objects_map();
        visited.insert(bytes_clone(oid));
        let ghost v2 = visited@;
        let content = match self.get_object(oid, DataType::Tree) {
            Ok(content) => content,
            Err(_) => {
                return ;
            },
        };
        let ghost spec_lines = lines_of(content@);
        let lines = split_lines(&content);
        let n = lines.len();
        let mut i: usize = 0;
        proof {
            assert(spec_lines.skip(0) =~= spec_lines);
        }
        while i < n
            invariant
                self.inv(),
                visited.inv(),
                objs == self.objects_map(),
                n == lines@.len(),
                views_of(lines@) == spec_lines,
                i <= n,
                tree_objs_lines(objs, spec_lines, v2, fuel as nat) == tree_objs_lines(
                    objs,
                    spec_lines.skip(i as int),
                    visited@,
                    fuel as nat,
                ),
            decreases n - i,
        {
            proof {
                assert(views_of(lines@)[i as int] == lines@[i as int]@);
                assert(spec_lines.skip(i as int)[0] == spec_lines[i as int]);
                assert(spec_lines.skip(i as int).skip(1) =~= spec_lines.skip(i as int + 1));
            }
            let fields = split_tree_line(&lines[i]);
            if !visited.contains(&fields.1) {
                let kind = crate::codec::kind_from_tag(&fields.0);
                match kind {
                    DataType::Tree => {
                        if fuel > 0 {
                            self.iter_objects_in_tree(&fields.1, visited, fuel - 1);
                        }
                    },
                    _ => {
                        visited.insert(fields.1);
                    },
                }
            }
            i += 1;
        }
        proof {
            assert(spec_lines.skip(n as int) =~= Seq::<Seq<u8>>::empty());
        }
    }

    /// The parsed entry lines of the tree stored under `oid`.
    pub fn iter_tree_entires(&self, oid: &Vec<u8>) -> (r: Result<
        Vec<(DataType, Vec<u8>, Vec<u8>)>,
        DateErr,
    >)
        requires
            self.inv(),
        ensures
            Self::get_object_ok(self.objects_map(), oid@, DataType::Tree) ==> (r matches Ok(ents)
                && ents@.map_values(|e: (DataType, Vec<u8>, Vec<u8>)| (e.0, e.1@, e.2@))
                == Seq::new(
                lines_of(env_content(self.objects_map()[oid@])).len(),
                |i: int|
                    {
                        let f = parse_tree_line(lines_of(env_content(self.objects_map()[oid@]))[i]);
                        (kind_of_tag(f.0), f.1, f.2)
                    },
            )),
            !Self::get_object_ok(self.objects_map(), oid@, DataType::Tree) ==> r is Err,
    {
        let content = match self.get_object(oid, DataType::Tree) {
            Ok(content) => content,
            Err(err) => {
                return Err(err);
            },
        };
        let ghost spec_lines = lines_of(content@);
        let lines = split_lines(&content);
        let n = lines.len();
        let mut r: Vec<(DataType, Vec<u8>, Vec<u8>)> = Vec::new();
        let mut i: usize = 0;
        proof {
            assert(r@.map_values(|e: (DataType, Vec<u8>, Vec<u8>)| (e.0, e.1@, e.2@)) =~= Seq::new(
                0nat,
                |i: int|
                    {
                        let f = parse_tree_line(spec_lines[i]);
                        (kind_of_tag(f.0), f.1, f.2)
                    },
            ));
        }
        while i < n
            invariant
                n == lines@.len(),
                views_of(lines@) == spec_lines,
                i <= n,
                r@.len() == i,
                r@.map_values(|e: (DataType, Vec<u8>, Vec<u8>)| (e.0, e.1@, e.2@)) == Seq::new(
                    i as nat,
                    |j: int|
                        {
                            let f = parse_tree_line(spec_lines[j]);
                            (kind_of_tag(f.0), f.1, f.2)
                        },
                ),
            decreases n - i,
        {
            proof {
                assert(views_of(lines@)[i as int] == lines@[i as int]@);
            }
            let fields = split_tree_line(&lines[i]);
            let kind = crate::codec::kind_from_tag(&fields.0);
            let ghost prev = r@;
            let ghost fview = (fields.0@, fields.1@, fields.2@);
            r.push((kind, fields.1, fields.2));
            proof {
                let m = |e: (DataType, Vec<u8>, Vec<u8>)| (e.0, e.1@, e.2@);
                let goal = Seq::new(
                    (i + 1) as nat,
                    |j: int|
                        {
                            let f = parse_tree_line(spec_lines[j]);
                            (kind_of_tag(f.0), f.1, f.2)
                        },
                );
                assert forall|j: int| 0 <= j < r@.len() implies #[trigger] r@.map_values(m)[j]
                    == goal[j] by {
                    if j < i as int {
                        assert(r@[j] == prev[j]);
                        assert(prev.map_values(m)[j] == m(prev[j]));
                        assert(prev.map_values(m)[j] == Seq::new(
                            i as nat,
                            |q: int|
                                {
                                    let f = parse_tree_line(spec_lines[q]);
                                    (kind_of_tag(f.0), f.1, f.2)
                                },
                        )[j]);
                    } else {
                        assert(r@[j] == (kind, fields.1, fields.2));
                        assert(m(r@[j]) == (kind, fview.1, fview.2));
                    }
                }
                assert(r@.map_values(m) =~= goal);
            }
            i += 1;
        }
        proof {
            assert(spec_lines.len() == n);
        }
        Ok(r)
    }

    /// The object closure of the commits reachable from `oids`.
    pub fn iter_objects_in_commits(&self, oids: Vec<Vec<u8>>) -> (r: crate::byteset::ByteSet)
        requires
            self.inv(),
        ensures
            r.inv(),
            r@ == objects_closure(*self, views_of(oids@)),
    {
        let ghost seeds = views_of(oids@);
        let ghost objs = self.objects_map();
        let commits = self.iter_commits_and_parents(oids);
        let ghost t = trav_of(*self, seeds);
        let mut visited = crate::byteset::ByteSet::new();
        let n = commits.len();
        let mut i: usize = 0;
        proof {
            assert(t.skip(0) =~= t);
        }
        while i < n
            invariant
                self.inv(),
                visited.inv(),
                objs == self.objects_map(),
                n == commits@.len(),
                views_of(commits@) == t,
                i <= n,
                commits_objs(objs, t, Set::empty()) == commits_objs(
                    objs,
                    t.skip(i as int),
                    visited@,
                ),
            decreases n - i,
        {
            proof {
                assert(views_of(commits@)[i as int] == commits@[i as int]@);
                assert(t.skip(i as int)[0] == t[i as int]);
                assert(t.skip(i as int).skip(1) =~= t.skip(i as int + 1));
            }
            let oid = bytes_clone(&commits[i]);
            match self.get_commit(&oid) {
                Some(c) => {
                    match c.tree {
                        Some(tr) => {
                            proof {
                                assert(commit_view(c).0 == commit_tree_of(objs, oid@));
                            }
                            if !visited.contains(&tr) {
                                self.iter_objects_in_tree(&tr, &mut visited, usize::MAX);
                            }
                        },
                        None => {
                            proof {
                                assert(commit_view(c).0 == commit_tree_of(objs, oid@));
                            }
                        },
                    }
                },
                None => {
                    proof {
                        assert(commit_tree_of(objs, oid@) is None);
                    }
                },
            }
            visited.insert(oid);
            i += 1;
        }
        proof {
            assert(t.skip(n as int) =~= Seq::<Seq<u8>>::empty());
        }
        visited
    }

    /// Copy every listed object that is missing locally in from
    /// `remote`, in order.
    pub(crate) fn pull_objects(&mut self, oids: &Vec<Vec<u8>>, remote: &Ugit)
        requires
            old(self).inv(),
            remote.inv(),
        ensures
            final(self).inv(),
            final(self).objects_map() == remote.objects_map().restrict(
                views_of(oids@).to_set(),
            ).union_prefer_right(old(self).objects_map()),
            final(self).refs_map() == old(self).refs_map(),
            final(self).index_map() == old(self).index_map(),
            final(self).git_dir_view() == old(self).git_dir_view(),
    {
        let ghost vs = views_of(oids@);
        let ghost robjs = remote.objects_map();
        let n = oids.len();
        let mut i: usize = 0;
        proof {
            assert(vs.take(0).to_set() =~= Set::<Seq<u8>>::empty()) by {
                assert forall|y: Seq<u8>| !(#[trigger] vs.take(0).contains(y)) by {}
            }
            assert(self.objects_map() =~= robjs.restrict(vs.take(0).to_set()).union_prefer_right(
                old(self).objects_map(),
            ));
        }
        while i < n
            invariant
                self.inv(),
                remote.inv(),
                robjs == remote.objects_map(),
                n == oids@.len(),
                views_of(oids@) == vs,
                i <= n,
                self.objects_map() == robjs.restrict(vs.take(i as int).to_set()).union_prefer_right(
                    old(self).objects_map(),
                ),
                self.refs_map() == old(self).refs_map(),
                self.index_map() == old(self).index_map(),
                self.git_dir_view() == old(self).git_dir_view(),
            decreases n - i,
        {
            proof {
                assert(views_of(oids@)[i as int] == oids@[i as int]@);
            }
            let _ = self.fetch_object_if_missing(&oids[i], remote);
            proof {
                let t0 = vs.take(i as int);
                let tn = vs.take(i as int + 1);
                let x = vs[i as int];
                assert(tn =~= t0.push(x));
                assert(tn.to_set() =~= t0.to_set().insert(x)) by {
                    assert forall|y: Seq<u8>| #[trigger] tn.to_set().contains(y) implies t0.to_set().insert(
                        x,
                    ).contains(y) by {
                        assert(tn.contains(y));
                        let j = choose|j: int| 0 <= j < tn.len() && tn[j] == y;
                        if j < i as int {
                            assert(t0[j] == y);
                            assert(t0.contains(y));
                        }
                    }
                    assert forall|y: Seq<u8>| #[trigger] t0.to_set().insert(x).contains(
                        y,
                    ) implies tn.to_set().contains(y) by {
                        if y == x {
                            assert(tn[i as int] == y);
                            assert(tn.contains(y));
                        } else {
                            assert(t0.contains(y));
                            let j = choose|j: int| 0 <= j < t0.len() && t0[j] == y;
                            assert(tn[j] == y);
                            assert(tn.contains(y));
                        }
                    }
                }
                assert(self.objects_map() =~= robjs.restrict(tn.to_set()).union_prefer_right(
                    old(self).objects_map(),
                ));
            }
            i += 1;
        }
        proof {
            assert(vs.take(n as int) =~= vs);
        }
    }

    /// Walk the ancestry of `oids` as the remote holds it, copying
    /// every visited commit that is missing locally.
    pub fn iter_commits_and_parents_with_fectch(&mut self, oids: Vec<Vec<u8>>, remote: &Ugit) -> (r:
        Vec<Vec<u8>>)
        requires
            old(self).inv(),
            remote.inv(),
        ensures
            final(self).inv(),
            views_of(r@) == trav_of(*remote, views_of(oids@)),
            final(self).objects_map() == remote.objects_map().restrict(
                trav_of(*remote, views_of(oids@)).to_set(),
            ).union_prefer_right(old(self).objects_map()),
            final(self).refs_map() == old(self).refs_map(),
            final(self).index_map() == old(self).index_map(),
            final(self).git_dir_view() == old(self).git_dir_view(),
    {
        let commits = remote.iter_commits_and_parents(oids);
        self.pull_objects(&commits, remote);
        commits
    }

    /// Compute the remote's object closure of `oids` and copy every
    /// member missing locally.
    pub fn iter_objects_in_commits_fetch(&mut self, oids: Vec<Vec<u8>>, remote: &Ugit) -> (r:
        crate::byteset::ByteSet)
        requires
            old(self).inv(),
            remote.inv(),
        ensures
            final(self).inv(),
            r.inv(),
            r@ == objects_closure(*remote, views_of(oids@)),
            final(self).objects_map() == remote.objects_map().restrict(r@).union_prefer_right(
                old(self).objects_map(),
            ),
            final(self).refs_map() == old(self).refs_map(),
            final(self).index_map() == old(self).index_map(),
            final(self).git_dir_view() == old(self).git_dir_view(),
    {
        let closure = remote.iter_objects_in_commits(oids);
        let m = closure.len();
        let mut members: Vec<Vec<u8>> = Vec::new();
        let mut i: usize = 0;
        proof {
            assert(views_of(members@) =~= closure.elem_seq().take(0));
        }
        while i < m
            invariant
                closure.inv(),
                m == closure.elem_seq().len(),
                i <= m,
                views_of(members@) == closure.elem_seq().take(i as int),
            decreases m - i,
        {
            let ghost prev = members@;
            members.push(closure.at(i));
            proof {
                crate::bytes::lemma_views_of_push(prev, members@[members@.len() - 1]);
                assert(views_of(members@) =~= closure.elem_seq().take(i as int + 1));
            }
            i += 1;
        }
        proof {
            assert(closure.elem_seq().take(m as int) =~= closure.elem_seq());
        }
        self.pull_objects(&members, remote);
        proof {
            closure.lemma_char();
            assert(closure.elem_seq().to_set() =~= closure@) by {
                assert forall|y: Seq<u8>| #[trigger] closure.elem_seq().to_set().contains(
                    y,
                ) implies closure@.contains(y) by {
                    assert(closure.elem_seq().contains(y));
                    let j = choose|j: int|
                        0 <= j < closure.elem_seq().len() && closure.elem_seq()[j] == y;
                }
                assert forall|y: Seq<u8>| #[trigger] closure@.contains(y) implies closure.elem_seq().to_set().contains(
                    y,
                ) by {
                    let j = choose|j: int|
                        0 <= j < closure.elem_seq().len() && closure.elem_seq()[j] == y;
                    assert(closure.elem_seq().contains(y));
                }
            }
        }
        closure
    }
}

/// No byte of `s` is a newline.
pub open spec fn nl_free(s: Seq<u8>) -> bool {
    forall|j: int| 0 <= j < s.len() ==> s[j] != 10
}

/// The recorded parents of a new commit: the current head, then the
/// merge head, each when present and non-empty.
pub open spec fn recorded_parents(h: Option<Seq<u8>>, m: Option<Seq<u8>>) -> Seq<Seq<u8>> {
    match (h, m) {
        (Some(hv), Some(mv)) => seq![hv, mv],
        (Some(hv), None) => seq![hv],
        (None, Some(mv)) => seq![mv],
        (None, None) => Seq::empty(),
    }
}

impl Ugit {
    /// Record the staged index as a commit: write the tree, name the
    /// current head (and a pending merge head, which is cleared) as
    /// parents, store the commit text, and move HEAD to it.
    #[verifier::rlimit(80)]
    pub fn commit(&mut self, message: &Vec<u8>) -> (r: Result<Vec<u8>, DateErr>)
        requires
            old(self).inv(),
        ensures
            final(self).inv(),
            final(self).index_map() == old(self).index_map(),
            final(self).git_dir_view() == old(self).git_dir_view(),
            r is Err ==> final(self).objects_map() == old(self).objects_map()
                && final(self).refs_map() == old(self).refs_map(),
            crate::tree::index_clean(old(self).index_map()) ==> r is Ok,
            r matches Ok(oid) ==> ({
                let refs0 = old(self).refs_map();
                let hv = resolved_value(refs0, head_name());
                let mv = resolved_value(refs0, merge_head_name());
                let h = if hv.len() > 0 {
                    Option::Some(hv)
                } else {
                    Option::<Seq<u8>>::None
                };
                let m = if mv.len() > 0 {
                    Option::Some(mv)
                } else {
                    Option::<Seq<u8>>::None
                };
                let refs1 = if mv.len() > 0 {
                    refs0.remove(resolve_ref(refs0, merge_head_name(), true, ref_fuel(refs0)).0)
                } else {
                    refs0
                };
                let pc = parse_commit(env_content(final(self).objects_map()[oid@]));
                &&& final(self).objects_map().contains_key(oid@)
                &&& Ugit::get_object_ok(final(self).objects_map(), oid@, DataType::Commit)
                &&& final(self).refs_map() == refs1.insert(
                    resolve_ref(refs1, head_name(), true, ref_fuel(refs1)).0,
                    oid@,
                )
                &&& (nl_free(hv) && nl_free(mv) && nl_free(message@) && (m is Some ==> h is Some))
                    ==> pc.0 is Some && pc.1 == recorded_parents(h, m) && pc.2 == message@
                &&& digest_injective() ==> (pc.0 matches Some(t) ==> flatten_tree(
                    final(self).objects_map(),
                    t,
                    Seq::empty(),
                    usize::MAX as nat,
                ) == Some(old(self).index_map()))
            }),
    {
        let ghost refs0 = self.refs_map();
        let ghost index0 = self.index_map();
        let tree = match self.write_tree() {
            Ok(t) => t,
            Err(err) => {
                return Err(err);
            },
        };
        let ghost objs_t = self.objects_map();
        let head = head_vec();
        let merge_head = merge_head_vec();
        let mut text = tree_prefix_vec();
        append_bytes(&mut text, &tree);
        text.push(10);
        let h_ref = self.get_ref_if_not_empty(&head);
        let ghost hv = resolved_value(refs0, head_name());
        let h_val: Option<Vec<u8>> = match h_ref {
            Some(v) => {
                let mut p = parent_prefix_vec();
                append_bytes(&mut p, &v.value);
                p.push(10);
                append_bytes(&mut text, &p);
                Some(v.value)
            },
            None => {
                text.push(10);
                None
            },
        };
        let m_ref = self.get_ref_if_not_empty(&merge_head);
        let ghost mv = resolved_value(refs0, merge_head_name());
        let m_val: Option<Vec<u8>> = match m_ref {
            Some(v) => {
                let mut p = parent_prefix_vec();
                append_bytes(&mut p, &v.value);
                p.push(10);
                append_bytes(&mut text, &p);
                let _ = self.delete_ref(&merge_head, true);
                Some(v.value)
            },
            None => {
                text.push(10);
                None
            },
        };
        let ghost refs1 = self.refs_map();
        text.push(10);
        append_bytes(&mut text, message);
        text.push(10);
        let ghost hs: Option<Seq<u8>> = if hv.len() > 0 {
            Some(hv)
        } else {
            None
        };
        let ghost ms: Option<Seq<u8>> = if mv.len() > 0 {
            Some(mv)
        } else {
            None
        };
        proof {
            assert(text@ =~= commit_text(tree@, hs, ms, message@));
        }
        let ghost objs1 = self.objects_map();
        let oid = match self.hash(&text, DataType::Commit) {
            Ok(o) => o,
            Err(err) => {
                proof {
                    assert(false);
                }
                return Err(err);
            },
        };
        proof {
            crate::codec::lemma_envelope_round_trip(DataType::Commit, text@);
            assert(self.objects_map()[oid@] == envelope(DataType::Commit, text@));
            assert(env_content(self.objects_map()[oid@]) == text@);
            assert(Ugit::get_object_ok(self.objects_map(), oid@, DataType::Commit));
            crate::digest::lemma_hex_str_clean(tree@);
            // the tree line always parses back, whatever the rest holds
            let tline = tree_prefix() + tree@;
            let hpart: Seq<u8> = match hs {
                Some(x) => parent_prefix() + x + seq![10u8],
                None => seq![10u8],
            };
            let mpart: Seq<u8> = match ms {
                Some(x) => parent_prefix() + x + seq![10u8],
                None => seq![10u8],
            };
            let rest = hpart + mpart + seq![10u8] + message@ + seq![10u8];
            assert(text@ =~= tline + seq![10u8] + rest);
            assert forall|j: int| 0 <= j < tline.len() implies tline[j] != 10 by {
                if j >= tree_prefix().len() {
                    assert(tline[j] == tree@[j - tree_prefix().len()]);
                }
            }
            crate::codec::lemma_lines_of_line(tline, rest);
            let lines = lines_of(text@);
            assert(lines[0] == tline);
            assert(is_prefix_of(tree_prefix(), tline)) by {
                assert(tline.subrange(0, tree_prefix().len() as int) =~= tree_prefix());
            }
            assert(tline.skip(tree_prefix().len() as int) =~= tree@);
            assert(parse_commit(text@).0 == Some(tree@));
            if nl_free(hv) && nl_free(mv) && nl_free(message@) && (ms is Some ==> hs is Some) {
                crate::codec::lemma_commit_round_trip(tree@, hs, ms, message@);
            }
            if digest_injective() {
                assert(text@[0] == 116);
                crate::tree::lemma_preserves_insert(objs1, self.objects_map(), DataType::Commit, text@);
                assert(crate::tree::hash_rooted(objs1, tree@, usize::MAX as nat));
                assert(flatten_tree(self.objects_map(), tree@, Seq::empty(), usize::MAX as nat)
                    == Some(index0));
            }
        }
        self.update_ref(&head, RefValue::direct(bytes_clone(&oid)), true);
        proof {
            assert(crate::data::ref_content(false, oid@) == oid@);
        }
        Ok(oid)
    }

    /// Move to the commit `name` denotes: load its tree into the
    /// index and point HEAD at it, symbolically when `name` is a
    /// branch. Reports whether a commit with a loadable tree was
    /// found.
    pub fn checkout(&mut self, name: &Vec<u8>) -> (r: bool)
        requires
            old(self).inv(),
        ensures
            final(self).inv(),
            final(self).objects_map() == old(self).objects_map(),
            final(self).git_dir_view() == old(self).git_dir_view(),
            r == ({
                let oid = get_oid_spec(old(self).refs_map(), name@);
                let pc = parse_commit(env_content(old(self).objects_map()[oid]));
                &&& Self::get_object_ok(old(self).objects_map(), oid, DataType::Commit)
                &&& pc.0 is Some
                &&& flatten_tree(
                    old(self).objects_map(),
                    pc.0->0,
                    Seq::empty(),
                    usize::MAX as nat,
                ) is Some
            }),
            !r ==> final(self).index_map() == old(self).index_map() && final(self).refs_map()
                == old(self).refs_map(),
            r ==> ({
                let oid = get_oid_spec(old(self).refs_map(), name@);
                let pc = parse_commit(env_content(old(self).objects_map()[oid]));
                &&& Self::get_object_ok(old(self).objects_map(), oid, DataType::Commit)
                &&& pc.0 matches Some(t) && flatten_tree(
                    old(self).objects_map(),
                    t,
                    Seq::empty(),
                    usize::MAX as nat,
                ) matches Some(m) && final(self).index_map() == m
                &&& final(self).refs_map() == old(self).refs_map().insert(
                    head_name(),
                    ({
                        let b = resolved_value(old(self).refs_map(), heads_prefix() + name@);
                        if b.len() > 0 {
                            crate::data::ref_content(true, heads_prefix() + name@)
                        } else {
                            oid
                        }
                    }),
                )
            }),
    {
        let oid = self.get_oid(name);
        let commit = match self.get_commit(&oid) {
            Some(c) => c,
            None => {
                return false;
            },
        };
        let tree_id = match commit.tree {
            Some(t) => t,
            None => {
                return false;
            },
        };
        if !self.read_tree(&tree_id) {
            return false;
        }
        let head = head_vec();
        let ref_value = if self.is_branch(name) {
            let mut b = heads_prefix_vec();
            append_bytes(&mut b, name);
            RefValue::symbolic(b)
        } else {
            RefValue::direct(bytes_clone(&oid))
        };
        proof {
            assert(resolve_ref(self.refs_map(), head_name(), false, ref_fuel(self.refs_map())).0
                == head_name());
        }
        self.update_ref(&head, ref_value, false);
        true
    }
}

/// The views of a sequence of path/content (or path/id) pairs.
pub open spec fn pairs_views(s: Seq<(Vec<u8>, Vec<u8>)>) -> Seq<(Seq<u8>, Seq<u8>)> {
    s.map_values(|p: (Vec<u8>, Vec<u8>)| (p.0@, p.1@))
}

/// Staging files: each content is stored as a blob and its path maps
/// to the blob's id; later entries win.
pub open spec fn staged(
    objs: Map<Seq<u8>, Seq<u8>>,
    index: Map<Seq<u8>, Seq<u8>>,
    files: Seq<(Seq<u8>, Seq<u8>)>,
) -> (Map<Seq<u8>, Seq<u8>>, Map<Seq<u8>, Seq<u8>>)
    decreases files.len(),
{
    if files.len() == 0 {
        (objs, index)
    } else {
        let f = files[0];
        staged(
            objs.insert(sha1_of(f.1), envelope(DataType::Blob, f.1)),
            index.insert(f.0, sha1_of(f.1)),
            files.skip(1),
        )
    }
}

/// The objects staging adds, regardless of the starting store.
pub open spec fn staged_blobs(files: Seq<(Seq<u8>, Seq<u8>)>) -> Map<Seq<u8>, Seq<u8>>
    decreases files.len(),
{
    if files.len() == 0 {
        Map::empty()
    } else {
        let f = files[0];
        Map::<Seq<u8>, Seq<u8>>::empty().insert(
            sha1_of(f.1),
            envelope(DataType::Blob, f.1),
        ).union_prefer_right(staged_blobs(files.skip(1)))
    }
}

/// The index entries staging adds, regardless of the starting index.
pub open spec fn staged_paths(files: Seq<(Seq<u8>, Seq<u8>)>) -> Map<Seq<u8>, Seq<u8>>
    decreases files.len(),
{
    if files.len() == 0 {
        Map::empty()
    } else {
        let f = files[0];
        Map::<Seq<u8>, Seq<u8>>::empty().insert(f.0, sha1_of(f.1)).union_prefer_right(
            staged_paths(files.skip(1)),
        )
    }
}

/// Staging lays its blobs and index entries over whatever was there.
pub proof fn lemma_staged_union(
    objs: Map<Seq<u8>, Seq<u8>>,
    index: Map<Seq<u8>, Seq<u8>>,
    files: Seq<(Seq<u8>, Seq<u8>)>,
)
    ensures
        staged(objs, index, files).0 == objs.union_prefer_right(staged_blobs(files)),
        staged(objs, index, files).1 == index.union_prefer_right(staged_paths(files)),
    decreases files.len(),
{
    if files.len() == 0 {
        assert(objs.union_prefer_right(staged_blobs(files)) =~= objs);
        assert(index.union_prefer_right(staged_paths(files)) =~= index);
    } else {
        let f = files[0];
        let o2 = objs.insert(sha1_of(f.1), envelope(DataType::Blob, f.1));
        let i2 = index.insert(f.0, sha1_of(f.1));
        lemma_staged_union(o2, i2, files.skip(1));
        assert(o2.union_prefer_right(staged_blobs(files.skip(1))) =~= objs.union_prefer_right(
            staged_blobs(files),
        ));
        assert(i2.union_prefer_right(staged_paths(files.skip(1))) =~= index.union_prefer_right(
            staged_paths(files),
        ));
    }
}

/// Staging the same files twice leaves the store and the index as one
/// staging left them.
pub proof fn lemma_add_idempotent(
    objs: Map<Seq<u8>, Seq<u8>>,
    index: Map<Seq<u8>, Seq<u8>>,
    files: Seq<(Seq<u8>, Seq<u8>)>,
)
    ensures
        staged(staged(objs, index, files).0, staged(objs, index, files).1, files) == staged(
            objs,
            index,
            files,
        ),
{
    lemma_staged_union(objs, index, files);
    lemma_staged_union(staged(objs, index, files).0, staged(objs, index, files).1, files);
    assert(objs.union_prefer_right(staged_blobs(files)).union_prefer_right(staged_blobs(files))
        =~= objs.union_prefer_right(staged_blobs(files)));
    assert(index.union_prefer_right(staged_paths(files)).union_prefer_right(staged_paths(files))
        =~= index.union_prefer_right(staged_paths(files)));
}

/// Storing a blob makes its exact bytes readable again under its id,
/// under the blob's own kind and under the wildcard.
pub proof fn lemma_content_addressing(objs: Map<Seq<u8>, Seq<u8>>, b: Seq<u8>, k: DataType)
    ensures
        ({
            let objs2 = objs.insert(sha1_of(b), envelope(k, b));
            &&& Ugit::get_object_ok(objs2, sha1_of(b), k)
            &&& Ugit::get_object_ok(objs2, sha1_of(b), DataType::Any)
            &&& env_content(objs2[sha1_of(b)]) == b
        }),
{
    crate::codec::lemma_envelope_round_trip(k, b);
}

/// Reading an object back under a different concrete kind fails; the
/// wildcard always succeeds on an existing object.
pub proof fn lemma_kind_integrity(objs: Map<Seq<u8>, Seq<u8>>, b: Seq<u8>, k1: DataType, k2: DataType)
    requires
        k1 != k2,
        !(k2 is Any),
    ensures
        ({
            let objs2 = objs.insert(sha1_of(b), envelope(k1, b));
            &&& !Ugit::get_object_ok(objs2, sha1_of(b), k2)
            &&& Ugit::get_object_ok(objs2, sha1_of(b), DataType::Any)
        }),
{
    crate::codec::lemma_envelope_round_trip(k1, b);
    let objs2 = objs.insert(sha1_of(b), envelope(k1, b));
    if env_kind(objs2[sha1_of(b)]) == tag_of(k2) {
        crate::codec::lemma_tag_injective(k1, k2);
    }
}

/// `w` stands as a whole path component of `p` at position `i`.
pub open spec fn component_at(p: Seq<u8>, w: Seq<u8>, i: int) -> bool {
    &&& 0 <= i
    &&& i + w.len() <= p.len()
    &&& p.subrange(i, i + w.len()) == w
    &&& (i == 0 || p[i - 1] == 47)
    &&& (i + w.len() == p.len() || p[i + w.len()] == 47)
}

/// Does any path component of `p` equal `w`?
pub open spec fn has_component(p: Seq<u8>, w: Seq<u8>) -> bool {
    exists|i: int| #[trigger] component_at(p, w, i)
}

/// The component ".rgit".
pub open spec fn rgit_component() -> Seq<u8> {
    seq![46u8, 114u8, 103u8, 105u8, 116u8]
}

/// The component ".git".
pub open spec fn git_component() -> Seq<u8> {
    seq![46u8, 103u8, 105u8, 116u8]
}

/// The component "target".
pub open spec fn target_component() -> Seq<u8> {
    seq![116u8, 97u8, 114u8, 103u8, 101u8, 116u8]
}

/// Paths the working-tree walk leaves alone: anything under the
/// store's own directory, a git directory, or build output.
pub fn is_ignored(path: &Vec<u8>) -> (r: bool)
    ensures
        r == (has_component(path@, rgit_component()) || has_component(path@, git_component())
            || has_component(path@, target_component())),
{
    let mut w1: Vec<u8> = Vec::new();
    w1.push(46);
    w1.push(114);
    w1.push(103);
    w1.push(105);
    w1.push(116);
    proof {
        assert(w1@ =~= rgit_component());
    }
    let mut w2: Vec<u8> = Vec::new();
    w2.push(46);
    w2.push(103);
    w2.push(105);
    w2.push(116);
    proof {
        assert(w2@ =~= git_component());
    }
    let mut w3: Vec<u8> = Vec::new();
    w3.push(116);
    w3.push(97);
    w3.push(114);
    w3.push(103);
    w3.push(101);
    w3.push(116);
    proof {
        assert(w3@ =~= target_component());
    }
    if component_at_any(path, &w1) {
        return true;
    }
    if component_at_any(path, &w2) {
        return true;
    }
    if component_at_any(path, &w3) {
        return true;
    }
    false
}

/// Scan for `w` standing as a whole path component of `p`.
fn component_at_any(p: &Vec<u8>, w: &Vec<u8>) -> (r: bool)
    requires
        w@.len() > 0,
    ensures
        r == has_component(p@, w@),
{
    let n = p.len();
    let m = w.len();
    if m > n {
        proof {
            if has_component(p@, w@) {
                let i = choose|i: int| #[trigger] component_at(p@, w@, i);
                assert(false);
            }
        }
        return false;
    }
    let bound = n - m;
    let mut i: usize = 0;
    while i <= bound
        invariant
            1 <= m <= n,
            n == p@.len(),
            m == w@.len(),
            bound == n - m,
            i <= bound + 1,
            forall|q: int| 0 <= q < i ==> !#[trigger] component_at(p@, w@, q),
        decreases bound + 1 - i,
    {
        let boundary_left = i == 0 || p[i - 1] == 47;
        let boundary_right = i + m == n || p[i + m] == 47;
        let mut hit = false;
        if boundary_left && boundary_right {
            let seg = subvec(p, i, i + m);
            if bytes_eq(&seg, w) {
                hit = true;
            }
        }
        if hit {
            proof {
                assert(component_at(p@, w@, i as int));
            }
            return true;
        }
        proof {
            assert(!component_at(p@, w@, i as int));
        }
        i += 1;
    }
    proof {
        if has_component(p@, w@) {
            let q = choose|q: int| #[trigger] component_at(p@, w@, q);
            assert(q + w@.len() <= p@.len());
            assert(q <= bound);
            assert(false);
        }
    }
    false
}

impl Ugit {
    /// Stage files: store each content as a blob and point its path
    /// at the blob in the index.
    pub fn add(&mut self, files: &Vec<(Vec<u8>, Vec<u8>)>)
        requires
            old(self).inv(),
        ensures
            final(self).inv(),
            final(self).objects_map() == staged(
                old(self).objects_map(),
                old(self).index_map(),
                pairs_views(files@),
            ).0,
            final(self).index_map() == staged(
                old(self).objects_map(),
                old(self).index_map(),
                pairs_views(files@),
            ).1,
            final(self).refs_map() == old(self).refs_map(),
            final(self).git_dir_view() == old(self).git_dir_view(),
    {
        let ghost vs = pairs_views(files@);
        let n = files.len();
        let mut i: usize = 0;
        proof {
            assert(vs.skip(0) =~= vs);
        }
        while i < n
            invariant
                self.inv(),
                n == files@.len(),
                vs == pairs_views(files@),
                i <= n,
                staged(old(self).objects_map(), old(self).index_map(), vs) == staged(
                    self.objects_map(),
                    self.index_map(),
                    vs.skip(i as int),
                ),
                self.refs_map() == old(self).refs_map(),
                self.git_dir_view() == old(self).git_dir_view(),
            decreases n - i,
        {
            proof {
                assert(vs[i as int] == (files@[i as int].0@, files@[i as int].1@));
                assert(vs.skip(i as int)[0] == vs[i as int]);
                assert(vs.skip(i as int).skip(1) =~= vs.skip(i as int + 1));
            }
            let oid = match self.hash(&files[i].1, DataType::Blob) {
                Ok(o) => o,
                Err(_) => {
                    proof {
                        assert(false);
                    }
                    return ;
                },
            };
            self.put_index_raw(bytes_clone(&files[i].0), oid);
            i += 1;
        }
        proof {
            assert(vs.skip(n as int) =~= Seq::<(Seq<u8>, Seq<u8>)>::empty());
        }
    }

    /// Hash the given working files as candidate blobs and return the
    /// path-to-id mapping, without touching the index.
    pub fn get_working_tree(&mut self, files: &Vec<(Vec<u8>, Vec<u8>)>) -> (r: ByteMap)
        requires
            old(self).inv(),
        ensures
            final(self).inv(),
            r.inv(),
            final(self).objects_map() == staged(
                old(self).objects_map(),
                Map::empty(),
                pairs_views(files@),
            ).0,
            r@ == staged(old(self).objects_map(), Map::empty(), pairs_views(files@)).1,
            final(self).refs_map() == old(self).refs_map(),
            final(self).index_map() == old(self).index_map(),
            final(self).git_dir_view() == old(self).git_dir_view(),
    {
        let ghost vs = pairs_views(files@);
        let mut out = ByteMap::new();
        let n = files.len();
        let mut i: usize = 0;
        proof {
            assert(vs.skip(0) =~= vs);
        }
        while i < n
            invariant
                self.inv(),
                out.inv(),
                n == files@.len(),
                vs == pairs_views(files@),
                i <= n,
                staged(old(self).objects_map(), Map::empty(), vs) == staged(
                    self.objects_map(),
                    out@,
                    vs.skip(i as int),
                ),
                self.refs_map() == old(self).refs_map(),
                self.index_map() == old(self).index_map(),
                self.git_dir_view() == old(self).git_dir_view(),
            decreases n - i,
        {
            proof {
                assert(vs[i as int] == (files@[i as int].0@, files@[i as int].1@));
                assert(vs.skip(i as int)[0] == vs[i as int]);
                assert(vs.skip(i as int).skip(1) =~= vs.skip(i as int + 1));
            }
            let oid = match self.hash(&files[i].1, DataType::Blob) {
                Ok(o) => o,
                Err(_) => {
                    proof {
                        assert(false);
                    }
                    return out;
                },
            };
            out.insert(bytes_clone(&files[i].0), oid);
            i += 1;
        }
        proof {
            assert(vs.skip(n as int) =~= Seq::<(Seq<u8>, Seq<u8>)>::empty());
        }
        out
    }

    /// Replace the index with merged file contents: each content is
    /// stored as a blob and staged under its path.
    pub fn read_tree_merged(&mut self, merged: &Vec<(Vec<u8>, Vec<u8>)>) -> (r: Result<
        (),
        DateErr,
    >)
        requires
            old(self).inv(),
        ensures
            final(self).inv(),
            r is Ok,
            final(self).objects_map() == staged(
                old(self).objects_map(),
                Map::empty(),
                pairs_views(merged@),
            ).0,
            final(self).index_map() == staged(
                old(self).objects_map(),
                Map::empty(),
                pairs_views(merged@),
            ).1,
            final(self).refs_map() == old(self).refs_map(),
            final(self).git_dir_view() == old(self).git_dir_view(),
    {
        let m = self.get_working_tree(merged);
        match self.write_index(&m) {
            Ok(_) => Ok(()),
            Err(_) => {
                proof {
                    assert(false);
                }
                Ok(())
            },
        }
    }
}

/// How a merge request ended.
pub enum MergeOutcome {
    /// There is no current commit to merge into.
    HeadMissing,
    /// A commit needed for the merge is missing or has no tree.
    CommitMissing,
    /// The other side was ahead of the head: HEAD moved to it.
    FastForwarded,
    /// A tree needed for the three-way merge could not be expanded.
    TreesMissing,
    /// A true merge: the per-path inputs to reconcile, with
    /// MERGE_HEAD left set until a commit records the result.
    Merging(Vec<crate::diff::MergeItem>),
}

/// The base tree's flat mapping for a merge: the merge base's tree
/// expansion, or empty when there is no base or it cannot be read.
pub open spec fn merge_base_tree_map(u: Ugit, hv: Seq<u8>, other_oid: Seq<u8>) -> Map<
    Seq<u8>,
    Seq<u8>,
> {
    match merge_base_spec(u, hv, other_oid) {
        Some(b) => match commit_tree_of(u.objects_map(), b) {
            Some(bt) => match flatten_tree(u.objects_map(), bt, Seq::empty(), usize::MAX as nat) {
                Some(m) => m,
                None => Map::empty(),
            },
            None => Map::empty(),
        },
        None => Map::empty(),
    }
}

impl Ugit {
    /// Merge the commit `other` names into the current head: fast
    /// forward when the head is already an ancestor, otherwise set
    /// MERGE_HEAD and hand back the per-path three-way inputs.
    #[verifier::rlimit(80)]
    pub fn merge(&mut self, other: &Vec<u8>) -> (r: MergeOutcome)
        requires
            old(self).inv(),
        ensures
            final(self).inv(),
            final(self).objects_map() == old(self).objects_map(),
            final(self).git_dir_view() == old(self).git_dir_view(),
            ({
                let refs0 = old(self).refs_map();
                let hv = resolved_value(refs0, head_name());
                let other_oid = get_oid_spec(refs0, other@);
                let to = commit_tree_of(old(self).objects_map(), other_oid);
                let ht = commit_tree_of(old(self).objects_map(), hv);
                let is_ff = merge_base_spec(*old(self), hv, other_oid) == Some(hv);
                let hm_ok = flatten_tree(
                    old(self).objects_map(),
                    ht->0,
                    Seq::empty(),
                    usize::MAX as nat,
                ) is Some;
                let tm_ok = flatten_tree(
                    old(self).objects_map(),
                    to->0,
                    Seq::empty(),
                    usize::MAX as nat,
                ) is Some;
                &&& (r is HeadMissing <==> hv.len() == 0)
                &&& (r is CommitMissing <==> hv.len() > 0 && (to is None || (!is_ff
                    && ht is None)))
                &&& (r is FastForwarded <==> hv.len() > 0 && to is Some && is_ff)
                &&& (r is TreesMissing <==> hv.len() > 0 && to is Some && !is_ff && ht is Some
                    && !(hm_ok && tm_ok))
                &&& (r is Merging <==> hv.len() > 0 && to is Some && !is_ff && ht is Some && hm_ok
                    && tm_ok)
                &&& (r is HeadMissing || r is CommitMissing ==> final(self).refs_map() == refs0
                    && final(self).index_map() == old(self).index_map())
                &&& (r is FastForwarded ==> (to matches Some(t_o) && final(self).refs_map()
                    == refs0.insert(old(self).ref_target(head_name(), true), other_oid) && (match
                    flatten_tree(old(self).objects_map(), t_o, Seq::empty(), usize::MAX as nat) {
                    Some(m) => final(self).index_map() == m,
                    None => final(self).index_map() == old(self).index_map(),
                })))
                &&& ((r is TreesMissing || r is Merging) ==> final(self).refs_map()
                    == refs0.insert(old(self).ref_target(merge_head_name(), true), other_oid)
                    && final(self).index_map() == old(self).index_map())
                &&& (r matches MergeOutcome::Merging(items) ==> ({
                    let hm = flatten_tree(
                        old(self).objects_map(),
                        commit_tree_of(old(self).objects_map(), hv)->0,
                        Seq::empty(),
                        usize::MAX as nat,
                    );
                    let tm = flatten_tree(
                        old(self).objects_map(),
                        to->0,
                        Seq::empty(),
                        usize::MAX as nat,
                    );
                    &&& commit_tree_of(old(self).objects_map(), hv) is Some
                    &&& hm is Some
                    &&& tm is Some
                    &&& crate::diff::plan_matches(
                        items@.map_values(|it: crate::diff::MergeItem| crate::diff::item_view(it)),
                        merge_base_tree_map(*old(self), hv, other_oid),
                        hm->0,
                        tm->0,
                    )
                }))
            }),
    {
        let head_vecv = head_vec();
        let hv_ref = match self.get_ref_if_not_empty(&head_vecv) {
            Some(v) => v,
            None => {
                return MergeOutcome::HeadMissing;
            },
        };
        let head_oid = hv_ref.value;
        let other_oid = self.get_oid(other);
        let mb = self.get_merge_base(&head_oid, &other_oid);
        let c_other = match self.get_commit(&other_oid) {
            Some(c) => c,
            None => {
                return MergeOutcome::CommitMissing;
            },
        };
        let c_other_tree = match c_other.tree {
            Some(t) => t,
            None => {
                return MergeOutcome::CommitMissing;
            },
        };
        let is_ff = match &mb {
            Some(b) => bytes_eq(b, &head_oid),
            None => false,
        };
        if is_ff {
            let _ = self.read_tree(&c_other_tree);
            self.update_ref(&head_vecv, RefValue::direct(bytes_clone(&other_oid)), true);
            proof {
                assert(crate::data::ref_content(false, other_oid@) == other_oid@);
            }
            return MergeOutcome::FastForwarded;
        }
        let c_head_tree = match self.get_commit(&head_oid) {
            Some(c) => match c.tree {
                Some(t) => t,
                None => {
                    return MergeOutcome::CommitMissing;
                },
            },
            None => {
                return MergeOutcome::CommitMissing;
            },
        };
        let merge_head_vecv = merge_head_vec();
        self.update_ref(&merge_head_vecv, RefValue::direct(bytes_clone(&other_oid)), true);
        proof {
            assert(crate::data::ref_content(false, other_oid@) == other_oid@);
        }
        let t_base = match &mb {
            Some(b) => {
                match self.get_commit(b) {
                    Some(c) => match c.tree {
                        Some(bt) => match self.get_tree_in_base(&bt) {
                            Some(m) => m,
                            None => ByteMap::new(),
                        },
                        None => ByteMap::new(),
                    },
                    None => ByteMap::new(),
                }
            },
            None => ByteMap::new(),
        };
        let t_head = match self.get_tree_in_base(&c_head_tree) {
            Some(m) => m,
            None => {
                return MergeOutcome::TreesMissing;
            },
        };
        let t_other = match self.get_tree_in_base(&c_other_tree) {
            Some(m) => m,
            None => {
                return MergeOutcome::TreesMissing;
            },
        };
        let items = match self.merge_tress(&t_base, &t_head, &t_other) {
            Ok(items) => items,
            Err(_) => {
                proof {
                    assert(false);
                }
                return MergeOutcome::TreesMissing;
            },
        };
        MergeOutcome::Merging(items)
    }
}

} // verus!
