//! Comparing flat trees: changed-path reports, change classification,
//! and the per-path inputs of a three-way merge.
use vstd::prelude::*;

use crate::bytemap::ByteMap;
use crate::byteset::ByteSet;
use crate::bytes::{append_bytes, bytes_clone, bytes_eq};
use crate::data::{DateErr, Ugit};

verus! {

/// What a map holds at a key, if anything.
pub open spec fn opt_get(m: Map<Seq<u8>, Seq<u8>>, k: Seq<u8>) -> Option<Seq<u8>> {
    if m.contains_key(k) {
        Some(m[k])
    } else {
        None
    }
}

/// The label "changed:".
pub open spec fn changed_label() -> Seq<u8> {
    seq![99u8, 104u8, 97u8, 110u8, 103u8, 101u8, 100u8, 58u8]
}

/// The action labels of the change report.
pub open spec fn new_file_label() -> Seq<u8> {
    seq![110u8, 101u8, 119u8, 32u8, 102u8, 105u8, 108u8, 101u8]  // "new file"
}

pub open spec fn deleted_label() -> Seq<u8> {
    seq![100u8, 101u8, 108u8, 101u8, 116u8, 101u8, 100u8]  // "deleted"
}

pub open spec fn modified_label() -> Seq<u8> {
    seq![109u8, 111u8, 100u8, 105u8, 102u8, 105u8, 101u8, 100u8]  // "modified"
}

/// How a path changed between two trees; empty when it did not.
pub open spec fn action_of(f: Map<Seq<u8>, Seq<u8>>, t: Map<Seq<u8>, Seq<u8>>, k: Seq<u8>) -> Seq<
    u8,
> {
    if !f.contains_key(k) && t.contains_key(k) {
        new_file_label()
    } else if f.contains_key(k) && !t.contains_key(k) {
        deleted_label()
    } else if f.contains_key(k) && t.contains_key(k) && f[k] != t[k] {
        modified_label()
    } else {
        Seq::empty()
    }
}

/// Key sequences in strictly increasing order.
pub open spec fn sorted_keys(ks: Seq<Seq<u8>>) -> bool {
    forall|i: int, j: int|
        0 <= i < j < ks.len() ==> crate::bytes::lex_lt(#[trigger] ks[i], #[trigger] ks[j])
}

/// The change report over a key sequence: one "changed:<path>" line
/// per key the two trees disagree on.
pub open spec fn diff_report(
    ks: Seq<Seq<u8>>,
    f: Map<Seq<u8>, Seq<u8>>,
    t: Map<Seq<u8>, Seq<u8>>,
) -> Seq<u8>
    decreases ks.len(),
{
    if ks.len() == 0 {
        Seq::empty()
    } else {
        (if opt_get(f, ks[0]) != opt_get(t, ks[0]) {
            changed_label() + ks[0] + seq![10u8]
        } else {
            Seq::empty()
        }) + diff_report(ks.skip(1), f, t)
    }
}

/// The keys among the first `j` entries of an entry sequence.
pub open spec fn keys_upto(s: Seq<(Seq<u8>, Seq<u8>)>, j: int) -> Set<Seq<u8>> {
    Set::new(|k: Seq<u8>| exists|q: int| 0 <= q < j && (#[trigger] s[q]).0 == k)
}

/// Collect the keys of `t` into `set`.
fn add_keys(set: &mut ByteSet, t: &ByteMap)
    requires
        old(set).inv(),
        t.inv(),
    ensures
        final(set).inv(),
        final(set)@ == old(set)@.union(t@.dom()),
{
    proof {
        t.lemma_char();
    }
    let n = t.len();
    let mut i: usize = 0;
    proof {
        assert(set@ =~= old(set)@.union(Set::<Seq<u8>>::empty()));
    }
    let mut j: usize = 0;
    while j < n
        invariant
            set.inv(),
            t.inv(),
            n == t.kv_seq().len(),
            j <= n,
            set@ == old(set)@.union(keys_upto(t.kv_seq(), j as int)),
        decreases n - j,
    {
        let (k, _) = t.entry_at(j);
        set.insert(k);
        proof {
            assert(set@ =~= old(set)@.union(keys_upto(t.kv_seq(), j as int + 1))) by {
                assert forall|k2: Seq<u8>| #[trigger] set@.contains(k2) implies old(set)@.union(
                    keys_upto(t.kv_seq(), j as int + 1),
                ).contains(k2) by {
                    if k2 == t.kv_seq()[j as int].0 {
                        assert(0 <= j < j + 1 && t.kv_seq()[j as int].0 == k2);
                        assert(keys_upto(t.kv_seq(), j as int + 1).contains(k2));
                    }
                }
                assert forall|k2: Seq<u8>| #[trigger] old(set)@.union(
                    keys_upto(t.kv_seq(), j as int + 1),
                ).contains(k2) implies set@.contains(k2) by {
                    if keys_upto(t.kv_seq(), j as int + 1).contains(k2) {
                        let q = choose|q: int|
                            0 <= q < j + 1 && (#[trigger] t.kv_seq()[q]).0 == k2;
                        if q < j as int {
                            assert(keys_upto(t.kv_seq(), j as int).contains(k2));
                        }
                    }
                }
            }
        }
        j += 1;
    }
    proof {
        t.lemma_char();
        assert(set@ =~= old(set)@.union(t@.dom())) by {
            assert forall|k: Seq<u8>| #[trigger] t@.dom().contains(k) implies keys_upto(
                t.kv_seq(),
                n as int,
            ).contains(k) by {
                let q = choose|q: int| 0 <= q < t.kv_seq().len() && (#[trigger] t.kv_seq()[q]).0 == k;
            }
            assert forall|k: Seq<u8>| #[trigger] keys_upto(t.kv_seq(), n as int).contains(
                k,
            ) implies t@.dom().contains(k) by {
                let q = choose|q: int| 0 <= q < n && (#[trigger] t.kv_seq()[q]).0 == k;
            }
        }
    }
}

/// The union of the key sets of two trees.
pub fn merge_key(a: &ByteMap, b: &ByteMap) -> (r: ByteSet)
    requires
        a.inv(),
        b.inv(),
    ensures
        r.inv(),
        r@ == a@.dom().union(b@.dom()),
{
    let mut set = ByteSet::new();
    add_keys(&mut set, a);
    add_keys(&mut set, b);
    proof {
        assert(Set::<Seq<u8>>::empty().union(a@.dom()).union(b@.dom()) =~= a@.dom().union(
            b@.dom(),
        ));
    }
    set
}

/// The union of the key sets of three trees.
pub fn merge_key3(a: &ByteMap, b: &ByteMap, c: &ByteMap) -> (r: ByteSet)
    requires
        a.inv(),
        b.inv(),
        c.inv(),
    ensures
        r.inv(),
        r@ == a@.dom().union(b@.dom()).union(c@.dom()),
{
    let mut set = ByteSet::new();
    add_keys(&mut set, a);
    add_keys(&mut set, b);
    add_keys(&mut set, c);
    proof {
        assert(Set::<Seq<u8>>::empty().union(a@.dom()).union(b@.dom()).union(c@.dom())
            =~= a@.dom().union(b@.dom()).union(c@.dom()));
    }
    set
}

/// Report each path whose blob differs between the two trees, one
/// "changed:<path>" line each, in sorted path order.
pub fn diff_tree(t_from: &ByteMap, t_to: &ByteMap) -> (r: Vec<u8>)
    requires
        t_from.inv(),
        t_to.inv(),
    ensures
        exists|ks: Seq<Seq<u8>>|
            #[trigger] diff_report(ks, t_from@, t_to@) == r@ && ks.to_set() == t_from@.dom().union(
                t_to@.dom(),
            ) && sorted_keys(ks),
{
    let keys = merge_key(t_from, t_to);
    let n = keys.len();
    let ghost ks = keys.elem_seq();
    let mut out: Vec<u8> = Vec::new();
    let mut i: usize = 0;
    proof {
        assert(ks.skip(0) =~= ks);
        assert(out@ + diff_report(ks.skip(0), t_from@, t_to@) =~= diff_report(ks, t_from@, t_to@));
    }
    while i < n
        invariant
            t_from.inv(),
            t_to.inv(),
            keys.inv(),
            n == ks.len(),
            ks == keys.elem_seq(),
            i <= n,
            out@ + diff_report(ks.skip(i as int), t_from@, t_to@) == diff_report(
                ks,
                t_from@,
                t_to@,
            ),
        decreases n - i,
    {
        proof {
            assert(ks.skip(i as int)[0] == ks[i as int]);
            assert(ks.skip(i as int).skip(1) =~= ks.skip(i as int + 1));
        }
        let k = keys.at(i);
        let from_v = t_from.get(&k);
        let to_v = t_to.get(&k);
        let differ = match (from_v, to_v) {
            (Some(a), Some(b)) => !bytes_eq(a, b),
            (None, None) => false,
            _ => true,
        };
        if differ {
            let ghost out0 = out@;
            let mut line: Vec<u8> = Vec::new();
            line.push(99);
            line.push(104);
            line.push(97);
            line.push(110);
            line.push(103);
            line.push(101);
            line.push(100);
            line.push(58);
            proof {
                assert(line@ =~= changed_label());
            }
            append_bytes(&mut line, &k);
            line.push(10);
            append_bytes(&mut out, &line);
            proof {
                assert(out@ =~= out0 + (changed_label() + ks[i as int] + seq![10u8]));
                assert(out@ + diff_report(ks.skip(i as int + 1), t_from@, t_to@) =~= diff_report(
                    ks,
                    t_from@,
                    t_to@,
                ));
            }
        } else {
            proof {
                assert(Seq::<u8>::empty() + diff_report(ks.skip(i as int + 1), t_from@, t_to@)
                    =~= diff_report(ks.skip(i as int + 1), t_from@, t_to@));
                assert(out@ + diff_report(ks.skip(i as int + 1), t_from@, t_to@) =~= diff_report(
                    ks,
                    t_from@,
                    t_to@,
                ));
            }
        }
        i += 1;
    }
    proof {
        assert(ks.skip(n as int) =~= Seq::<Seq<u8>>::empty());
        assert(out@ + Seq::<u8>::empty() =~= out@);
        keys.lemma_char();
        assert(ks.to_set() =~= keys@) by {
            assert forall|y: Seq<u8>| #[trigger] ks.to_set().contains(y) implies keys@.contains(
                y,
            ) by {
                assert(ks.contains(y));
                let q = choose|q: int| 0 <= q < ks.len() && ks[q] == y;
            }
            assert forall|y: Seq<u8>| #[trigger] keys@.contains(y) implies ks.to_set().contains(
                y,
            ) by {
                let q = choose|q: int| 0 <= q < ks.len() && ks[q] == y;
                assert(ks.contains(y));
            }
        }
        assert(sorted_keys(ks)) by {
            keys.lemma_sorted();
        }
        assert(diff_report(ks, t_from@, t_to@) == out@ && ks.to_set() == t_from@.dom().union(
            t_to@.dom(),
        ) && sorted_keys(ks));
    }
    out
}

/// Classify each path present in either tree as newly added, deleted
/// or modified.
pub fn iter_changed_files(t_from: &ByteMap, t_to: &ByteMap) -> (r: ByteMap)
    requires
        t_from.inv(),
        t_to.inv(),
    ensures
        r.inv(),
        forall|k: Seq<u8>|
            #[trigger] r@.contains_key(k) <==> action_of(t_from@, t_to@, k) != Seq::<u8>::empty(),
        forall|k: Seq<u8>|
            #[trigger] r@.contains_key(k) ==> r@[k] == action_of(t_from@, t_to@, k),
{
    let keys = merge_key(t_from, t_to);
    let n = keys.len();
    let ghost ks = keys.elem_seq();
    let mut out = ByteMap::new();
    let mut i: usize = 0;
    proof {
        keys.lemma_char();
    }
    while i < n
        invariant
            t_from.inv(),
            t_to.inv(),
            keys.inv(),
            out.inv(),
            n == ks.len(),
            ks == keys.elem_seq(),
            keys@ == t_from@.dom().union(t_to@.dom()),
            i <= n,
            forall|k: Seq<u8>|
                #[trigger] out@.contains_key(k) <==> ((exists|q: int|
                    0 <= q < i && ks[q] == k) && action_of(t_from@, t_to@, k)
                    != Seq::<u8>::empty()),
            forall|k: Seq<u8>|
                #[trigger] out@.contains_key(k) ==> out@[k] == action_of(t_from@, t_to@, k),
        decreases n - i,
    {
        let k = keys.at(i);
        let from_v = t_from.get(&k);
        let to_v = t_to.get(&k);
        let action: Option<Vec<u8>> = match (from_v, to_v) {
            (None, Some(_)) => {
                let mut a: Vec<u8> = Vec::new();
                a.push(110);
                a.push(101);
                a.push(119);
                a.push(32);
                a.push(102);
                a.push(105);
                a.push(108);
                a.push(101);
                proof {
                    assert(a@ =~= new_file_label());
                }
                Some(a)
            },
            (Some(_), None) => {
                let mut a: Vec<u8> = Vec::new();
                a.push(100);
                a.push(101);
                a.push(108);
                a.push(101);
                a.push(116);
                a.push(101);
                a.push(100);
                proof {
                    assert(a@ =~= deleted_label());
                }
                Some(a)
            },
            (Some(x), Some(y)) => {
                if !bytes_eq(x, y) {
                    let mut a: Vec<u8> = Vec::new();
                    a.push(109);
                    a.push(111);
                    a.push(100);
                    a.push(105);
                    a.push(102);
                    a.push(105);
                    a.push(101);
                    a.push(100);
                    proof {
                        assert(a@ =~= modified_label());
                    }
                    Some(a)
                } else {
                    None
                }
            },
            (None, None) => None,
        };
        match action {
            Some(a) => {
                proof {
                    assert(a@ == action_of(t_from@, t_to@, ks[i as int]));
                }
                out.insert(k, a);
                proof {
                    assert forall|k2: Seq<u8>| #[trigger] out@.contains_key(k2) implies ((exists|q: int|
                        0 <= q < i + 1 && ks[q] == k2) && action_of(t_from@, t_to@, k2)
                        != Seq::<u8>::empty()) by {
                        if k2 == ks[i as int] {
                            assert(0 <= i < i + 1 && ks[i as int] == k2);
                        }
                    }
                }
            },
            None => {
                proof {
                    assert(action_of(t_from@, t_to@, ks[i as int]) == Seq::<u8>::empty());
                    assert forall|k2: Seq<u8>| #[trigger] out@.contains_key(k2) implies ((exists|q: int|
                        0 <= q < i + 1 && ks[q] == k2) && action_of(t_from@, t_to@, k2)
                        != Seq::<u8>::empty()) by {
                        let q = choose|q: int| 0 <= q < i && ks[q] == k2;
                    }
                    assert forall|k2: Seq<u8>|
                        ((exists|q: int| 0 <= q < i + 1 && ks[q] == k2) && action_of(
                            t_from@,
                            t_to@,
                            k2,
                        ) != Seq::<u8>::empty()) implies #[trigger] out@.contains_key(k2) by {
                        let q = choose|q: int| 0 <= q < i + 1 && ks[q] == k2;
                        if q == i as int {
                            assert(k2 == ks[i as int]);
                            assert(false);
                        }
                    }
                }
            },
        }
        i += 1;
    }
    proof {
        keys.lemma_char();
        assert forall|k: Seq<u8>|
            action_of(t_from@, t_to@, k) != Seq::<u8>::empty() implies (exists|q: int|
            0 <= q < n && ks[q] == k) by {
            assert(t_from@.dom().contains(k) || t_to@.dom().contains(k));
            assert(keys@.contains(k));
        }
    }
    out
}

/// One path of a merge plan: the blob on each side of the three-way
/// merge, where that side has the path.
pub struct MergeItem {
    pub path: Vec<u8>,
    pub base: Option<Vec<u8>>,
    pub head: Option<Vec<u8>>,
    pub other: Option<Vec<u8>>,
}

/// A merge item as its mathematical content.
pub open spec fn item_view(it: MergeItem) -> (Seq<u8>, Option<Seq<u8>>, Option<Seq<u8>>, Option<
    Seq<u8>,
>) {
    (
        it.path@,
        match it.base {
            Some(v) => Some(v@),
            None => None,
        },
        match it.head {
            Some(v) => Some(v@),
            None => None,
        },
        match it.other {
            Some(v) => Some(v@),
            None => None,
        },
    )
}

/// The plan lists exactly the paths of the three trees, each with its
/// three sides, in strictly increasing path order.
pub open spec fn plan_matches(
    vs: Seq<(Seq<u8>, Option<Seq<u8>>, Option<Seq<u8>>, Option<Seq<u8>>)>,
    b: Map<Seq<u8>, Seq<u8>>,
    f: Map<Seq<u8>, Seq<u8>>,
    t: Map<Seq<u8>, Seq<u8>>,
) -> bool {
    &&& forall|i: int|
        0 <= i < vs.len() ==> ({
            let k = (#[trigger] vs[i]).0;
            &&& b.dom().union(f.dom()).union(t.dom()).contains(k)
            &&& vs[i].1 == opt_get(b, k)
            &&& vs[i].2 == opt_get(f, k)
            &&& vs[i].3 == opt_get(t, k)
        })
    &&& forall|k: Seq<u8>|
        #[trigger] b.dom().union(f.dom()).union(t.dom()).contains(k) ==> exists|i: int|
            0 <= i < vs.len() && (#[trigger] vs[i]).0 == k
    &&& forall|i: int, j: int|
        0 <= i < j < vs.len() ==> crate::bytes::lex_lt((#[trigger] vs[i]).0, (#[trigger] vs[j]).0)
}

impl Ugit {
    /// The per-path inputs of a three-way merge: for every path in
    /// any of the three trees, what each tree holds there, in sorted
    /// path order.
    pub fn merge_tress(&self, t_base: &ByteMap, t_from: &ByteMap, t_to: &ByteMap) -> (r: Result<
        Vec<MergeItem>,
        DateErr,
    >)
        requires
            t_base.inv(),
            t_from.inv(),
            t_to.inv(),
        ensures
            r matches Ok(items) && plan_matches(
                items@.map_values(|it: MergeItem| item_view(it)),
                t_base@,
                t_from@,
                t_to@,
            ),
    {
        let keys = merge_key3(t_base, t_from, t_to);
        let n = keys.len();
        let ghost ks = keys.elem_seq();
        let mut items: Vec<MergeItem> = Vec::new();
        let mut i: usize = 0;
        proof {
            keys.lemma_char();
            keys.lemma_sorted();
        }
        while i < n
            invariant
                t_base.inv(),
                t_from.inv(),
                t_to.inv(),
                keys.inv(),
                n == ks.len(),
                ks == keys.elem_seq(),
                keys@ == t_base@.dom().union(t_from@.dom()).union(t_to@.dom()),
                i <= n,
                items@.len() == i,
                forall|j: int|
                    0 <= j < i ==> ({
                        let it = item_view(#[trigger] items@[j]);
                        &&& it.0 == ks[j]
                        &&& it.1 == opt_get(t_base@, ks[j])
                        &&& it.2 == opt_get(t_from@, ks[j])
                        &&& it.3 == opt_get(t_to@, ks[j])
                    }),
            decreases n - i,
        {
            let k = keys.at(i);
            let base = match t_base.get(&k) {
                Some(v) => Some(bytes_clone(v)),
                None => None,
            };
            let head = match t_from.get(&k) {
                Some(v) => Some(bytes_clone(v)),
                None => None,
            };
            let other = match t_to.get(&k) {
                Some(v) => Some(bytes_clone(v)),
                None => None,
            };
            items.push(MergeItem { path: k, base, head, other });
            i += 1;
        }
        proof {
            keys.lemma_char();
            keys.lemma_sorted();
            let vs = items@.map_values(|it: MergeItem| item_view(it));
            assert forall|j: int| 0 <= j < vs.len() implies (#[trigger] vs[j]).0 == ks[j] by {
                assert(vs[j] == item_view(items@[j]));
            }
            assert forall|k: Seq<u8>| #[trigger] keys@.contains(k) implies exists|j: int|
                0 <= j < vs.len() && (#[trigger] vs[j]).0 == k by {
                let q = choose|q: int| 0 <= q < ks.len() && ks[q] == k;
                assert(vs[q].0 == k);
            }
        }
        Ok(items)
    }
}

} // verus!
