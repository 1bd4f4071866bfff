//! The plumbing layer: object kinds, the repository value with its
//! content-addressed object store, and reference storage.
use vstd::prelude::*;

use crate::bytemap::ByteMap;
use crate::bytes::{bytes_clone, bytes_eq, is_prefix_of, starts_with, subvec};
use crate::codec::{env_content, env_kind, envelope, make_envelope, split_envelope, tag_of};
use crate::digest::{sha1_hex, sha1_of};

verus! {

/// The kind tag stored in an object's envelope. `Any` is the wildcard
/// a reader passes when it does not care about the kind.
#[derive(Clone, Copy, PartialEq, Eq, Structural, Debug)]
pub enum DataType {
    Any,
    Blob,
    Tree,
    Commit,
}

/// The errors the store and reference layers report.
#[derive(Debug)]
pub enum DateErr {
    /// An object was read back under an unexpected kind.
    ContentMisMatch(Vec<u8>),
    /// A commit references a tree that cannot be expanded.
    TreeNotExists(Vec<u8>),
    /// An object or file is missing or unreadable.
    Io(Vec<u8>),
    /// Anything else.
    Other(Vec<u8>),
}

/// A reference's content: either a direct object id or a symbolic
/// pointer to another reference.
pub struct RefValue {
    pub symbolic: bool,
    pub value: Vec<u8>,
}

impl RefValue {
    pub fn direct(value: Vec<u8>) -> (r: RefValue)
        ensures
            r.symbolic == false,
            r.value@ == value@,
    {
        RefValue { symbolic: false, value }
    }

    pub fn symbolic(value: Vec<u8>) -> (r: RefValue)
        ensures
            r.symbolic == true,
            r.value@ == value@,
    {
        RefValue { symbolic: true, value }
    }
}

/// A repository: the object store, the reference files and the staged
/// index, each an abstract byte-string map, plus the store location
/// that the surrounding program persists it under.
pub struct Ugit {
    git_dir: Vec<u8>,
    objects: ByteMap,
    refs: ByteMap,
    index: ByteMap,
}

impl Default for Ugit {
    fn default() -> (r: Ugit)
        ensures
            r.inv(),
            r.git_dir_view() == dot_rgit(),
            r.objects_map() == Map::<Seq<u8>, Seq<u8>>::empty(),
            r.refs_map() == Map::<Seq<u8>, Seq<u8>>::empty(),
            r.index_map() == Map::<Seq<u8>, Seq<u8>>::empty(),
    {
        let mut dir: Vec<u8> = Vec::new();
        dir.push(46);
        dir.push(114);
        dir.push(103);
        dir.push(105);
        dir.push(116);
        proof {
            assert(dir@ =~= dot_rgit());
        }
        Ugit { git_dir: dir, objects: ByteMap::new(), refs: ByteMap::new(), index: ByteMap::new() }
    }
}

/// The default store directory name, ".rgit".
pub open spec fn dot_rgit() -> Seq<u8> {
    seq![46, 114, 103, 105, 116]
}

impl Ugit {
    /// The three stores are well formed.
    pub closed spec fn inv(self) -> bool {
        self.objects.inv() && self.refs.inv() && self.index.inv()
    }

    /// The object store: object id to stored envelope.
    pub closed spec fn objects_map(self) -> Map<Seq<u8>, Seq<u8>> {
        self.objects@
    }

    /// The reference store: reference name to file content.
    pub closed spec fn refs_map(self) -> Map<Seq<u8>, Seq<u8>> {
        self.refs@
    }

    /// The staged index: path to blob object id.
    pub closed spec fn index_map(self) -> Map<Seq<u8>, Seq<u8>> {
        self.index@
    }

    pub closed spec fn git_dir_view(self) -> Seq<u8> {
        self.git_dir@
    }

    /// Compute the digest of `bytes`, store the enveloped object under
    /// it, and return it. Writing the same content twice writes the
    /// same envelope to the same id.
    pub fn hash(&mut self, bytes: &Vec<u8>, ty: DataType) -> (r: Result<Vec<u8>, DateErr>)
        requires
            old(self).inv(),
        ensures
            final(self).inv(),
            r matches Ok(oid) && oid@ == sha1_of(bytes@),
            crate::digest::hex_str(sha1_of(bytes@)),
            final(self).objects_map() == old(self).objects_map().insert(
                sha1_of(bytes@),
                envelope(ty, bytes@),
            ),
            final(self).refs_map() == old(self).refs_map(),
            final(self).index_map() == old(self).index_map(),
            final(self).git_dir_view() == old(self).git_dir_view(),
    {
        let oid = sha1_hex(bytes);
        let env = make_envelope(ty, bytes);
        self.objects.insert(bytes_clone(&oid), env);
        Ok(oid)
    }

    /// Whether reading `oid` while expecting `expected` succeeds.
    pub open spec fn get_object_ok(
        objects: Map<Seq<u8>, Seq<u8>>,
        oid: Seq<u8>,
        expected: DataType,
    ) -> bool {
        objects.contains_key(oid) && (expected is Any || env_kind(objects[oid]) == tag_of(expected))
    }

    /// Read an object's content back, checking the stored kind against
    /// `expected` unless the wildcard is passed. Fails on a missing
    /// object, and on a kind mismatch.
    pub fn get_object(&self, oid: &Vec<u8>, expected: DataType) -> (r: Result<Vec<u8>, DateErr>)
        requires
            self.inv(),
        ensures
            Self::get_object_ok(self.objects_map(), oid@, expected) ==> (r matches Ok(c) && c@
                == env_content(self.objects_map()[oid@])),
            !self.objects_map().contains_key(oid@) ==> (r matches Err(e) && e is Io),
            self.objects_map().contains_key(oid@) && !Self::get_object_ok(
                self.objects_map(),
                oid@,
                expected,
            ) ==> (r matches Err(e) && e is ContentMisMatch),
    {
        let env = match self.objects.get(oid) {
            Some(env) => env,
            None => {
                return Err(DateErr::Io(bytes_clone(oid)));
            },
        };
        let (ty, content) = split_envelope(env);
        match expected {
            DataType::Any => Ok(content),
            _ => {
                let expect_tag = crate::codec::tag_bytes(expected);
                if bytes_eq(&ty, &expect_tag) {
                    Ok(content)
                } else {
                    Err(DateErr::ContentMisMatch(ty))
                }
            },
        }
    }

    /// Is an object stored under `oid`?
    pub fn objects_exists(&self, oid: &Vec<u8>) -> (r: bool)
        requires
            self.inv(),
        ensures
            r == self.objects_map().contains_key(oid@),
    {
        self.objects.contains_key(oid)
    }

    /// Copy the raw stored bytes of `oid` from `remote` unless the
    /// object is already present locally.
    pub fn fetch_object_if_missing(&mut self, oid: &Vec<u8>, remote: &Ugit) -> (r: Result<
        (),
        DateErr,
    >)
        requires
            old(self).inv(),
            remote.inv(),
        ensures
            final(self).inv(),
            old(self).objects_map().contains_key(oid@) ==> r is Ok && final(self).objects_map()
                == old(self).objects_map(),
            !old(self).objects_map().contains_key(oid@)
                && remote.objects_map().contains_key(oid@) ==> r is Ok && final(self).objects_map()
                == old(self).objects_map().insert(oid@, remote.objects_map()[oid@]),
            !old(self).objects_map().contains_key(oid@) && !remote.objects_map().contains_key(oid@)
                ==> r is Err && final(self).objects_map() == old(self).objects_map(),
            final(self).refs_map() == old(self).refs_map(),
            final(self).index_map() == old(self).index_map(),
            final(self).git_dir_view() == old(self).git_dir_view(),
    {
        if self.objects.contains_key(oid) {
            return Ok(());
        }
        match remote.objects.get(oid) {
            Some(env) => {
                let env = bytes_clone(env);
                self.objects.insert(bytes_clone(oid), env);
                Ok(())
            },
            None => Err(DateErr::Io(bytes_clone(oid))),
        }
    }

    /// Swap the store location for another, returning the old one.
    pub fn change_git_dir(&mut self, new_dir: Vec<u8>) -> (r: Vec<u8>)
        ensures
            r@ == old(self).git_dir_view(),
            final(self).git_dir_view() == new_dir@,
            final(self).objects_map() == old(self).objects_map(),
            final(self).refs_map() == old(self).refs_map(),
            final(self).index_map() == old(self).index_map(),
            final(self).inv() == old(self).inv(),
    {
        let old_dir = bytes_clone(&self.git_dir);
        self.git_dir = new_dir;
        old_dir
    }
}

/// The name of the current-commit reference.
pub open spec fn head_name() -> Seq<u8> {
    seq![72u8, 69u8, 65u8, 68u8]  // "HEAD"
}

/// The name of the in-progress-merge reference.
pub open spec fn merge_head_name() -> Seq<u8> {
    seq![77u8, 69u8, 82u8, 71u8, 69u8, 95u8, 72u8, 69u8, 65u8, 68u8]  // "MERGE_HEAD"
}

/// The content prefix that marks a symbolic reference.
pub open spec fn ref_prefix() -> Seq<u8> {
    seq![114u8, 101u8, 102u8, 58u8, 32u8]  // "ref: "
}

/// The namespace under which named references live.
pub open spec fn refs_slash() -> Seq<u8> {
    seq![114u8, 101u8, 102u8, 115u8, 47u8]  // "refs/"
}

/// The namespace of branches.
pub open spec fn heads_prefix() -> Seq<u8> {
    seq![114u8, 101u8, 102u8, 115u8, 47u8, 104u8, 101u8, 97u8, 100u8, 115u8, 47u8]  // "refs/heads/"
}

/// The namespace of tags.
pub open spec fn tags_prefix() -> Seq<u8> {
    seq![114u8, 101u8, 102u8, 115u8, 47u8, 116u8, 97u8, 103u8, 115u8, 47u8]  // "refs/tags/"
}

pub fn head_vec() -> (r: Vec<u8>)
    ensures
        r@ == head_name(),
{
    let mut r: Vec<u8> = Vec::new();
    r.push(72);
    r.push(69);
    r.push(65);
    r.push(68);
    proof {
        assert(r@ =~= head_name());
    }
    r
}

pub fn merge_head_vec() -> (r: Vec<u8>)
    ensures
        r@ == merge_head_name(),
{
    let mut r: Vec<u8> = Vec::new();
    r.push(77);
    r.push(69);
    r.push(82);
    r.push(71);
    r.push(69);
    r.push(95);
    r.push(72);
    r.push(69);
    r.push(65);
    r.push(68);
    proof {
        assert(r@ =~= merge_head_name());
    }
    r
}

pub fn ref_prefix_vec() -> (r: Vec<u8>)
    ensures
        r@ == ref_prefix(),
{
    let mut r: Vec<u8> = Vec::new();
    r.push(114);
    r.push(101);
    r.push(102);
    r.push(58);
    r.push(32);
    proof {
        assert(r@ =~= ref_prefix());
    }
    r
}

pub fn refs_slash_vec() -> (r: Vec<u8>)
    ensures
        r@ == refs_slash(),
{
    let mut r: Vec<u8> = Vec::new();
    r.push(114);
    r.push(101);
    r.push(102);
    r.push(115);
    r.push(47);
    proof {
        assert(r@ =~= refs_slash());
    }
    r
}

pub fn heads_prefix_vec() -> (r: Vec<u8>)
    ensures
        r@ == heads_prefix(),
{
    let mut r = refs_slash_vec();
    r.push(104);
    r.push(101);
    r.push(97);
    r.push(100);
    r.push(115);
    r.push(47);
    proof {
        assert(r@ =~= heads_prefix());
    }
    r
}

pub fn tags_prefix_vec() -> (r: Vec<u8>)
    ensures
        r@ == tags_prefix(),
{
    let mut r = refs_slash_vec();
    r.push(116);
    r.push(97);
    r.push(103);
    r.push(115);
    r.push(47);
    proof {
        assert(r@ =~= tags_prefix());
    }
    r
}

/// The stored file content for a reference value.
pub open spec fn ref_content(symbolic: bool, value: Seq<u8>) -> Seq<u8> {
    if symbolic {
        ref_prefix() + value
    } else {
        value
    }
}

/// One resolution step: read the file (missing reads as empty) and
/// strip the symbolic prefix if it is there.
pub open spec fn ref_step(refs: Map<Seq<u8>, Seq<u8>>, name: Seq<u8>) -> (bool, Seq<u8>) {
    let content = if refs.contains_key(name) {
        refs[name]
    } else {
        Seq::empty()
    };
    if is_prefix_of(ref_prefix(), content) {
        (true, content.skip(ref_prefix().len() as int))
    } else {
        (false, content)
    }
}

/// Resolve a reference: follow symbolic pointers while `deref` asks
/// for it, for at most `fuel` steps; a chain longer than the store
/// can hold distinct references is a cycle and yields an empty direct
/// value. Returns the name the chase stopped at, whether that
/// reference is symbolic, and its value.
pub open spec fn resolve_ref(
    refs: Map<Seq<u8>, Seq<u8>>,
    name: Seq<u8>,
    deref: bool,
    fuel: nat,
) -> (Seq<u8>, bool, Seq<u8>)
    decreases fuel,
{
    if fuel == 0 {
        (name, false, Seq::empty())
    } else {
        let step = ref_step(refs, name);
        if step.0 && deref {
            resolve_ref(refs, step.1, deref, (fuel - 1) as nat)
        } else {
            (name, step.0, step.1)
        }
    }
}

/// The resolution depth every reference read uses: one more step than
/// there are references, so only a cycle can exhaust it.
pub open spec fn ref_fuel(refs: Map<Seq<u8>, Seq<u8>>) -> nat {
    refs.dom().len() + 1
}

impl Ugit {
    /// The reference entries in storage order.
    pub closed spec fn refs_seq(self) -> Seq<(Seq<u8>, Seq<u8>)> {
        self.refs.kv_seq()
    }

    /// How the reference map and its entry sequence correspond.
    pub proof fn lemma_refs_char(self)
        requires
            self.inv(),
        ensures
            forall|k: Seq<u8>|
                #[trigger] self.refs_map().contains_key(k) <==> exists|i: int|
                    0 <= i < self.refs_seq().len() && (#[trigger] self.refs_seq()[i]).0 == k,
            forall|i: int|
                0 <= i < self.refs_seq().len() ==> self.refs_map().contains_key(
                    (#[trigger] self.refs_seq()[i]).0,
                ) && self.refs_map()[self.refs_seq()[i].0] == self.refs_seq()[i].1,
            self.refs_map().dom().finite(),
            self.refs_map().dom().len() == self.refs_seq().len(),
    {
        self.refs.lemma_char();
        self.refs.lemma_dom();
        assert forall|k: Seq<u8>| #[trigger] self.refs_map().contains_key(k) implies exists|i: int|
            0 <= i < self.refs_seq().len() && (#[trigger] self.refs_seq()[i]).0 == k by {
            let i = choose|i: int|
                0 <= i < self.refs.kv_seq().len() && (#[trigger] self.refs.kv_seq()[i]).0 == k;
            assert(self.refs_seq()[i].0 == k);
        }
        assert forall|k: Seq<u8>|
            (exists|i: int| 0 <= i < self.refs_seq().len() && (#[trigger] self.refs_seq()[i]).0
                == k) implies self.refs_map().contains_key(k) by {
            let i = choose|i: int|
                0 <= i < self.refs_seq().len() && (#[trigger] self.refs_seq()[i]).0 == k;
            assert(self.refs.kv_seq()[i].0 == k);
        }
    }

    /// One executable resolution step.
    fn ref_step_exec(&self, name: &Vec<u8>) -> (r: (bool, Vec<u8>))
        requires
            self.inv(),
        ensures
            (r.0, r.1@) == ref_step(self.refs_map(), name@),
    {
        let prefix = ref_prefix_vec();
        let content: Vec<u8> = match self.refs.get(name) {
            Some(c) => bytes_clone(c),
            None => Vec::new(),
        };
        if starts_with(&content, &prefix) {
            let value = subvec(&content, prefix.len(), content.len());
            (true, value)
        } else {
            (false, content)
        }
    }

    /// Read a reference, following symbolic pointers when `deref` is
    /// set; returns the name resolution stopped at and what it holds.
    fn get_ref_internal(&self, ref_str: &Vec<u8>, deref: bool) -> (r: (Vec<u8>, RefValue))
        requires
            self.inv(),
        ensures
            ({
                let s = resolve_ref(
                    self.refs_map(),
                    ref_str@,
                    deref,
                    ref_fuel(self.refs_map()),
                );
                r.0@ == s.0 && r.1.symbolic == s.1 && r.1.value@ == s.2
            }),
    {
        proof {
            self.lemma_refs_char();
        }
        let ghost fuel0 = ref_fuel(self.refs_map());
        let mut name = bytes_clone(ref_str);
        let mut fuel: usize = self.refs.len();
        loop
            invariant
                self.inv(),
                fuel0 == ref_fuel(self.refs_map()),
                resolve_ref(self.refs_map(), ref_str@, deref, fuel0) == resolve_ref(
                    self.refs_map(),
                    name@,
                    deref,
                    (fuel + 1) as nat,
                ),
            decreases fuel,
        {
            let step = self.ref_step_exec(&name);
            if !(step.0 && deref) {
                return (name, RefValue { symbolic: step.0, value: step.1 });
            }
            if fuel == 0 {
                proof {
                    assert(resolve_ref(self.refs_map(), step.1@, deref, 0nat) == (
                        step.1@,
                        false,
                        Seq::<u8>::empty(),
                    ));
                    assert(resolve_ref(self.refs_map(), name@, deref, 1nat) == (
                        step.1@,
                        false,
                        Seq::<u8>::empty(),
                    ));
                }
                return (step.1, RefValue { symbolic: false, value: Vec::new() });
            }
            fuel = fuel - 1;
            name = step.1;
        }
    }
}

impl Ugit {
    /// Read a reference; `deref` follows symbolic pointers.
    pub fn get_ref(&self, ref_str: &Vec<u8>, deref: bool) -> (r: Option<RefValue>)
        requires
            self.inv(),
        ensures
            ({
                let s = resolve_ref(self.refs_map(), ref_str@, deref, ref_fuel(self.refs_map()));
                r matches Some(v) && v.symbolic == s.1 && v.value@ == s.2
            }),
    {
        let (_, value) = self.get_ref_internal(ref_str, deref);
        Some(value)
    }

    /// Read a reference, always following symbolic pointers.
    pub fn get_ref_recursive(&self, ref_str: &Vec<u8>) -> (r: Option<RefValue>)
        requires
            self.inv(),
        ensures
            ({
                let s = resolve_ref(self.refs_map(), ref_str@, true, ref_fuel(self.refs_map()));
                r matches Some(v) && v.symbolic == s.1 && v.value@ == s.2
            }),
    {
        self.get_ref(ref_str, true)
    }

    /// Read a reference recursively, keeping only a non-empty value.
    pub fn get_ref_if_not_empty(&self, ref_str: &Vec<u8>) -> (r: Option<RefValue>)
        requires
            self.inv(),
        ensures
            ({
                let s = resolve_ref(self.refs_map(), ref_str@, true, ref_fuel(self.refs_map()));
                if s.2.len() == 0 {
                    r is None
                } else {
                    r matches Some(v) && v.symbolic == s.1 && v.value@ == s.2
                }
            }),
    {
        let (_, value) = self.get_ref_internal(ref_str, true);
        if value.value.len() == 0 {
            None
        } else {
            Some(value)
        }
    }

    /// The name an update or delete of `ref_str` lands on: the
    /// reference itself, or what it resolves to when `deref` is set.
    pub open spec fn ref_target(self, name: Seq<u8>, deref: bool) -> Seq<u8> {
        resolve_ref(self.refs_map(), name, deref, ref_fuel(self.refs_map())).0
    }

    /// Write a reference file. With `deref`, a symbolic reference is
    /// resolved first, so updating HEAD moves the branch it points at.
    pub fn update_ref(&mut self, ref_str: &Vec<u8>, value: RefValue, deref: bool)
        requires
            old(self).inv(),
        ensures
            final(self).inv(),
            final(self).refs_map() == old(self).refs_map().insert(
                old(self).ref_target(ref_str@, deref),
                ref_content(value.symbolic, value.value@),
            ),
            final(self).objects_map() == old(self).objects_map(),
            final(self).index_map() == old(self).index_map(),
            final(self).git_dir_view() == old(self).git_dir_view(),
    {
        let (target, _) = self.get_ref_internal(ref_str, deref);
        let content = if value.symbolic {
            let mut c = ref_prefix_vec();
            crate::bytes::append_bytes(&mut c, &value.value);
            c
        } else {
            bytes_clone(&value.value)
        };
        self.refs.insert(target, content);
    }

    /// Remove a reference file if it is there; `deref` aims the
    /// removal at the resolved reference.
    pub fn delete_ref(&mut self, ref_str: &Vec<u8>, deref: bool) -> (r: Result<(), DateErr>)
        requires
            old(self).inv(),
        ensures
            final(self).inv(),
            r is Ok,
            final(self).refs_map() == old(self).refs_map().remove(
                old(self).ref_target(ref_str@, deref),
            ),
            final(self).objects_map() == old(self).objects_map(),
            final(self).index_map() == old(self).index_map(),
            final(self).git_dir_view() == old(self).git_dir_view(),
    {
        let (target, _) = self.get_ref_internal(ref_str, deref);
        self.refs.remove(&target);
        Ok(())
    }
}

/// The reference names of `s` that carry both prefixes, in storage
/// order.
pub open spec fn keys_matching(
    s: Seq<(Seq<u8>, Seq<u8>)>,
    p1: Seq<u8>,
    p2: Seq<u8>,
) -> Seq<Seq<u8>>
    decreases s.len(),
{
    if s.len() == 0 {
        Seq::empty()
    } else {
        let pre = keys_matching(s.drop_last(), p1, p2);
        let k = s.last().0;
        if is_prefix_of(p1, k) && is_prefix_of(p2, k) {
            pre.push(k)
        } else {
            pre
        }
    }
}

/// Every name `keys_matching` keeps carries both prefixes.
pub proof fn lemma_keys_matching(s: Seq<(Seq<u8>, Seq<u8>)>, p1: Seq<u8>, p2: Seq<u8>)
    ensures
        forall|j: int|
            0 <= j < keys_matching(s, p1, p2).len() ==> is_prefix_of(
                p1,
                #[trigger] keys_matching(s, p1, p2)[j],
            ) && is_prefix_of(p2, keys_matching(s, p1, p2)[j]),
    decreases s.len(),
{
    if s.len() > 0 {
        lemma_keys_matching(s.drop_last(), p1, p2);
        let pre = keys_matching(s.drop_last(), p1, p2);
        let k = s.last().0;
        assert forall|j: int| 0 <= j < keys_matching(s, p1, p2).len() implies is_prefix_of(
            p1,
            #[trigger] keys_matching(s, p1, p2)[j],
        ) && is_prefix_of(p2, keys_matching(s, p1, p2)[j]) by {
            if is_prefix_of(p1, k) && is_prefix_of(p2, k) {
                assert(keys_matching(s, p1, p2) == pre.push(k));
                if j < pre.len() {
                    assert(keys_matching(s, p1, p2)[j] == pre[j]);
                } else {
                    assert(keys_matching(s, p1, p2)[j] == k);
                }
            } else {
                assert(keys_matching(s, p1, p2) == pre);
            }
        }
    }
}

/// The reference listing for a prefix: the two pseudo-references
/// first when they match, then every stored name under "refs/" that
/// matches, in storage order.
pub open spec fn ref_listing(s: Seq<(Seq<u8>, Seq<u8>)>, prefix: Seq<u8>) -> Seq<Seq<u8>> {
    (if is_prefix_of(prefix, head_name()) {
        seq![head_name()]
    } else {
        Seq::empty()
    }) + (if is_prefix_of(prefix, merge_head_name()) {
        seq![merge_head_name()]
    } else {
        Seq::empty()
    }) + keys_matching(s, refs_slash(), prefix)
}

impl Ugit {
    /// List the reference names that start with `prefix`: the two
    /// pseudo-references and everything stored under "refs/".
    pub fn iter_refs_prefix(&self, prefix: &Vec<u8>) -> (r: Vec<Vec<u8>>)
        requires
            self.inv(),
        ensures
            crate::bytes::views_of(r@) == ref_listing(self.refs_seq(), prefix@),
    {
        let mut r: Vec<Vec<u8>> = Vec::new();
        let head = head_vec();
        let merge_head = merge_head_vec();
        let refs_dir = refs_slash_vec();
        if starts_with(&head, prefix) {
            r.push(head);
        }
        if starts_with(&merge_head, prefix) {
            r.push(merge_head);
        }
        let ghost pseudo = crate::bytes::views_of(r@);
        proof {
            assert(pseudo =~= (if is_prefix_of(prefix@, head_name()) {
                seq![head_name()]
            } else {
                Seq::<Seq<u8>>::empty()
            }) + (if is_prefix_of(prefix@, merge_head_name()) {
                seq![merge_head_name()]
            } else {
                Seq::<Seq<u8>>::empty()
            }));
        }
        let n = self.refs.len();
        let mut i: usize = 0;
        while i < n
            invariant
                self.inv(),
                n == self.refs_seq().len(),
                i <= n,
                crate::bytes::views_of(r@) == pseudo + keys_matching(
                    self.refs_seq().take(i as int),
                    refs_slash(),
                    prefix@,
                ),
                refs_dir@ == refs_slash(),
            decreases n - i,
        {
            let (k, _) = self.refs_entry_at(i);
            let ghost taken = self.refs_seq().take(i as int + 1);
            proof {
                assert(taken.drop_last() =~= self.refs_seq().take(i as int));
                assert(taken.last() == self.refs_seq()[i as int]);
            }
            if starts_with(&k, &refs_dir) && starts_with(&k, prefix) {
                let ghost prev_vec = r@;
                r.push(k);
                proof {
                    crate::bytes::lemma_views_of_push(prev_vec, r@[r@.len() - 1]);
                    assert(crate::bytes::views_of(r@) =~= pseudo + keys_matching(
                        taken,
                        refs_slash(),
                        prefix@,
                    ));
                }
            } else {
                proof {
                    assert(crate::bytes::views_of(r@) =~= pseudo + keys_matching(
                        taken,
                        refs_slash(),
                        prefix@,
                    ));
                }
            }
            i += 1;
        }
        proof {
            assert(self.refs_seq().take(n as int) =~= self.refs_seq());
        }
        r
    }

    /// List every reference name.
    pub fn iter_refs(&self) -> (r: Vec<Vec<u8>>)
        requires
            self.inv(),
        ensures
            crate::bytes::views_of(r@) == ref_listing(self.refs_seq(), Seq::empty()),
    {
        let empty: Vec<u8> = Vec::new();
        self.iter_refs_prefix(&empty)
    }

    /// List the branch names: every reference under "refs/heads/",
    /// with that prefix stripped.
    pub fn iter_branch_names(&self) -> (r: Vec<Vec<u8>>)
        requires
            self.inv(),
        ensures
            crate::bytes::views_of(r@) == ref_listing(self.refs_seq(), heads_prefix()).map_values(
                |k: Seq<u8>| k.skip(heads_prefix().len() as int),
            ),
    {
        let prefix = heads_prefix_vec();
        let names = self.iter_refs_prefix(&prefix);
        let mut r: Vec<Vec<u8>> = Vec::new();
        let ghost listing = ref_listing(self.refs_seq(), heads_prefix());
        proof {
            assert(!is_prefix_of(heads_prefix(), head_name()));
            assert(!is_prefix_of(heads_prefix(), merge_head_name()));
            assert(listing =~= keys_matching(self.refs_seq(), refs_slash(), heads_prefix()));
            lemma_keys_matching(self.refs_seq(), refs_slash(), heads_prefix());
            assert(crate::bytes::views_of(r@) =~= listing.take(0).map_values(
                |k: Seq<u8>| k.skip(heads_prefix().len() as int),
            ));
        }
        let n = names.len();
        let mut i: usize = 0;
        while i < n
            invariant
                n == names@.len(),
                i <= n,
                prefix@ == heads_prefix(),
                crate::bytes::views_of(names@) == listing,
                crate::bytes::views_of(r@) == listing.take(i as int).map_values(
                    |k: Seq<u8>| k.skip(heads_prefix().len() as int),
                ),
                forall|j: int|
                    0 <= j < listing.len() ==> is_prefix_of(heads_prefix(), #[trigger] listing[j]),
            decreases n - i,
        {
            proof {
                assert(crate::bytes::views_of(names@)[i as int] == names@[i as int]@);
                assert(listing[i as int] == names@[i as int]@);
            }
            let name = &names[i];
            proof {
                assert(is_prefix_of(heads_prefix(), listing[i as int]));
            }
            let stripped = subvec(name, prefix.len(), name.len());
            proof {
                assert(stripped@ =~= listing[i as int].skip(heads_prefix().len() as int));
            }
            let ghost prev_vec = r@;
            r.push(stripped);
            proof {
                crate::bytes::lemma_views_of_push(prev_vec, r@[r@.len() - 1]);
                assert(listing.take(i as int + 1).drop_last() =~= listing.take(i as int));
                assert(crate::bytes::views_of(r@) =~= listing.take(i as int + 1).map_values(
                    |k: Seq<u8>| k.skip(heads_prefix().len() as int),
                ));
            }
            i += 1;
        }
        proof {
            assert(listing.take(n as int) =~= listing);
        }
        r
    }

    /// The object store entries in storage order.
    pub closed spec fn objects_seq(self) -> Seq<(Seq<u8>, Seq<u8>)> {
        self.objects.kv_seq()
    }

    /// The staged index entries in storage order.
    pub closed spec fn index_seq(self) -> Seq<(Seq<u8>, Seq<u8>)> {
        self.index.kv_seq()
    }

    /// How the object map and its entry sequence correspond.
    pub proof fn lemma_objects_char(self)
        requires
            self.inv(),
        ensures
            forall|k: Seq<u8>|
                #[trigger] self.objects_map().contains_key(k) <==> exists|i: int|
                    0 <= i < self.objects_seq().len() && (#[trigger] self.objects_seq()[i]).0 == k,
            forall|i: int|
                0 <= i < self.objects_seq().len() ==> self.objects_map().contains_key(
                    (#[trigger] self.objects_seq()[i]).0,
                ) && self.objects_map()[self.objects_seq()[i].0] == self.objects_seq()[i].1,
            self.objects_map().dom().finite(),
            self.objects_map().dom().len() == self.objects_seq().len(),
    {
        self.objects.lemma_char();
        self.objects.lemma_dom();
        assert forall|k: Seq<u8>| #[trigger] self.objects_map().contains_key(k) implies exists|i: int|
            0 <= i < self.objects_seq().len() && (#[trigger] self.objects_seq()[i]).0 == k by {
            let i = choose|i: int|
                0 <= i < self.objects.kv_seq().len() && (#[trigger] self.objects.kv_seq()[i]).0 == k;
            assert(self.objects_seq()[i].0 == k);
        }
        assert forall|k: Seq<u8>|
            (exists|i: int| 0 <= i < self.objects_seq().len() && (#[trigger] self.objects_seq()[i]).0
                == k) implies self.objects_map().contains_key(k) by {
            let i = choose|i: int|
                0 <= i < self.objects_seq().len() && (#[trigger] self.objects_seq()[i]).0 == k;
            assert(self.objects.kv_seq()[i].0 == k);
        }
    }

    /// The staged index's entries are strictly sorted by path.
    pub proof fn lemma_index_sorted(self)
        requires
            self.inv(),
        ensures
            crate::bytemap::entries_sorted(self.index_seq()),
    {
    }

    /// How the index map and its entry sequence correspond.
    pub proof fn lemma_index_char(self)
        requires
            self.inv(),
        ensures
            forall|k: Seq<u8>|
                #[trigger] self.index_map().contains_key(k) <==> exists|i: int|
                    0 <= i < self.index_seq().len() && (#[trigger] self.index_seq()[i]).0 == k,
            forall|i: int|
                0 <= i < self.index_seq().len() ==> self.index_map().contains_key(
                    (#[trigger] self.index_seq()[i]).0,
                ) && self.index_map()[self.index_seq()[i].0] == self.index_seq()[i].1,
    {
        self.index.lemma_char();
        assert forall|k: Seq<u8>| #[trigger] self.index_map().contains_key(k) implies exists|i: int|
            0 <= i < self.index_seq().len() && (#[trigger] self.index_seq()[i]).0 == k by {
            let i = choose|i: int|
                0 <= i < self.index.kv_seq().len() && (#[trigger] self.index.kv_seq()[i]).0 == k;
            assert(self.index_seq()[i].0 == k);
        }
        assert forall|k: Seq<u8>|
            (exists|i: int| 0 <= i < self.index_seq().len() && (#[trigger] self.index_seq()[i]).0
                == k) implies self.index_map().contains_key(k) by {
            let i = choose|i: int|
                0 <= i < self.index_seq().len() && (#[trigger] self.index_seq()[i]).0 == k;
            assert(self.index.kv_seq()[i].0 == k);
        }
    }

    /// Number of stored objects.
    pub fn objects_len(&self) -> (r: usize)
        ensures
            r == self.objects_seq().len(),
    {
        self.objects.len()
    }

    /// The object entry at storage position `i`.
    pub fn objects_entry_at(&self, i: usize) -> (r: (Vec<u8>, Vec<u8>))
        requires
            i < self.objects_seq().len(),
        ensures
            (r.0@, r.1@) == self.objects_seq()[i as int],
    {
        self.objects.entry_at(i)
    }

    /// Number of reference files.
    pub fn refs_len(&self) -> (r: usize)
        ensures
            r == self.refs_seq().len(),
    {
        self.refs.len()
    }

    /// The reference entry at storage position `i`.
    pub fn refs_entry_at(&self, i: usize) -> (r: (Vec<u8>, Vec<u8>))
        requires
            i < self.refs_seq().len(),
        ensures
            (r.0@, r.1@) == self.refs_seq()[i as int],
    {
        self.refs.entry_at(i)
    }

    /// Number of staged index entries.
    pub fn index_len(&self) -> (r: usize)
        ensures
            r == self.index_seq().len(),
    {
        self.index.len()
    }

    /// The index entry at storage position `i`.
    pub fn index_entry_at(&self, i: usize) -> (r: (Vec<u8>, Vec<u8>))
        requires
            i < self.index_seq().len(),
        ensures
            (r.0@, r.1@) == self.index_seq()[i as int],
    {
        self.index.entry_at(i)
    }


    /// A copy of the staged index.
    pub fn get_index(&self) -> (r: Result<ByteMap, DateErr>)
        requires
            self.inv(),
        ensures
            r matches Ok(m) && m@ == self.index_map() && m.inv(),
    {
        Ok(self.index.duplicate())
    }

    /// Replace the staged index wholesale.
    pub fn write_index(&mut self, m: &ByteMap) -> (r: Result<(), DateErr>)
        requires
            old(self).inv(),
            m.inv(),
        ensures
            final(self).inv(),
            r is Ok,
            final(self).index_map() == m@,
            final(self).objects_map() == old(self).objects_map(),
            final(self).refs_map() == old(self).refs_map(),
            final(self).git_dir_view() == old(self).git_dir_view(),
    {
        self.index = m.duplicate();
        Ok(())
    }

    /// Does the staged index hold exactly the entries of `m`?
    pub fn index_matches(&self, m: &ByteMap) -> (r: bool)
        requires
            self.inv(),
            m.inv(),
        ensures
            r == (m@ == self.index_map()),
    {
        self.index.same_entries(m)
    }

    /// Place raw stored bytes under an object id, as a persistence
    /// loader does.
    pub fn put_object_raw(&mut self, oid: Vec<u8>, stored: Vec<u8>)
        requires
            old(self).inv(),
        ensures
            final(self).inv(),
            final(self).objects_map() == old(self).objects_map().insert(oid@, stored@),
            final(self).refs_map() == old(self).refs_map(),
            final(self).index_map() == old(self).index_map(),
            final(self).git_dir_view() == old(self).git_dir_view(),
    {
        self.objects.insert(oid, stored);
    }

    /// Place raw file content under a reference name, as a
    /// persistence loader does.
    pub fn put_ref_raw(&mut self, name: Vec<u8>, content: Vec<u8>)
        requires
            old(self).inv(),
        ensures
            final(self).inv(),
            final(self).refs_map() == old(self).refs_map().insert(name@, content@),
            final(self).objects_map() == old(self).objects_map(),
            final(self).index_map() == old(self).index_map(),
            final(self).git_dir_view() == old(self).git_dir_view(),
    {
        self.refs.insert(name, content);
    }

    /// Place a staged entry into the index, as a persistence loader
    /// does.
    pub fn put_index_raw(&mut self, path: Vec<u8>, oid: Vec<u8>)
        requires
            old(self).inv(),
        ensures
            final(self).inv(),
            final(self).index_map() == old(self).index_map().insert(path@, oid@),
            final(self).objects_map() == old(self).objects_map(),
            final(self).refs_map() == old(self).refs_map(),
            final(self).git_dir_view() == old(self).git_dir_view(),
    {
        self.index.insert(path, oid);
    }
}

} // verus!
