//! Fetch and push between two repositories: object closures are
//! copied, then the reference tips are recorded.
use vstd::prelude::*;

use crate::base::{objects_closure, resolved_value};
use crate::bytes::{append_bytes, bytes_clone, is_prefix_of, starts_with, subvec, views_of};
use crate::data::{ref_listing, RefValue, Ugit};

verus! {

/// The remote branch namespace, "refs/heads" (no trailing slash, as
/// the prefix filter reads it).
pub open spec fn remote_ref_base() -> Seq<u8> {
    seq![114u8, 101u8, 102u8, 115u8, 47u8, 104u8, 101u8, 97u8, 100u8, 115u8]
}

/// The local tracking namespace, "refs/remote".
pub open spec fn local_refs_base() -> Seq<u8> {
    seq![114u8, 101u8, 102u8, 115u8, 47u8, 114u8, 101u8, 109u8, 111u8, 116u8, 101u8]
}

pub fn remote_ref_base_vec() -> (r: Vec<u8>)
    ensures
        r@ == remote_ref_base(),
{
    let mut r: Vec<u8> = Vec::new();
    r.push(114);
    r.push(101);
    r.push(102);
    r.push(115);
    r.push(47);
    r.push(104);
    r.push(101);
    r.push(97);
    r.push(100);
    r.push(115);
    proof {
        assert(r@ =~= remote_ref_base());
    }
    r
}

pub fn local_refs_base_vec() -> (r: Vec<u8>)
    ensures
        r@ == local_refs_base(),
{
    let mut r: Vec<u8> = Vec::new();
    r.push(114);
    r.push(101);
    r.push(102);
    r.push(115);
    r.push(47);
    r.push(114);
    r.push(101);
    r.push(109);
    r.push(111);
    r.push(116);
    r.push(101);
    proof {
        assert(r@ =~= local_refs_base());
    }
    r
}

/// The advertised references of a store: each listed name beside its
/// non-empty resolved value.
pub open spec fn advertised_refs(refs: Map<Seq<u8>, Seq<u8>>, listing: Seq<Seq<u8>>) -> Seq<
    (Seq<u8>, Seq<u8>),
>
    decreases listing.len(),
{
    if listing.len() == 0 {
        Seq::empty()
    } else {
        let v = resolved_value(refs, listing[0]);
        let rest = advertised_refs(refs, listing.skip(1));
        if v.len() > 0 {
            seq![(listing[0], v)] + rest
        } else {
            rest
        }
    }
}

/// The reference store after recording one tracking tip per fetched
/// branch, in list order.
pub open spec fn tracking_updates(
    refs: Map<Seq<u8>, Seq<u8>>,
    pairs: Seq<(Seq<u8>, Seq<u8>)>,
) -> Map<Seq<u8>, Seq<u8>>
    decreases pairs.len(),
{
    if pairs.len() == 0 {
        refs
    } else {
        let p = pairs[0];
        let refs2 = if is_prefix_of(remote_ref_base(), p.0) {
            let new_name = local_refs_base() + p.0.skip(remote_ref_base().len() as int);
            refs.insert(
                crate::data::resolve_ref(refs, new_name, true, crate::data::ref_fuel(refs)).0,
                p.1,
            )
        } else {
            refs
        };
        tracking_updates(refs2, pairs.skip(1))
    }
}

impl Ugit {
    /// List another store's references under `prefix`, resolved, with
    /// empty ones left out.
    pub fn get_remote_refs(&self, remote: &Ugit, prefix: &Vec<u8>) -> (r: Vec<(Vec<u8>, Vec<u8>)>)
        requires
            remote.inv(),
        ensures
            crate::base::pairs_views(r@) == advertised_refs(
                remote.refs_map(),
                ref_listing(remote.refs_seq(), prefix@),
            ),
    {
        let names = remote.iter_refs_prefix(prefix);
        let ghost listing = ref_listing(remote.refs_seq(), prefix@);
        let mut r: Vec<(Vec<u8>, Vec<u8>)> = Vec::new();
        let n = names.len();
        let mut i: usize = 0;
        proof {
            assert(listing.skip(0) =~= listing);
            assert(crate::base::pairs_views(r@) =~= Seq::<(Seq<u8>, Seq<u8>)>::empty());
        }
        while i < n
            invariant
                remote.inv(),
                n == names@.len(),
                views_of(names@) == listing,
                n == listing.len(),
                i <= n,
                advertised_refs(remote.refs_map(), listing) == crate::base::pairs_views(r@)
                    + advertised_refs(remote.refs_map(), listing.skip(i as int)),
            decreases n - i,
        {
            proof {
                assert(views_of(names@)[i as int] == names@[i as int]@);
                assert(listing.skip(i as int)[0] == listing[i as int]);
                assert(listing.skip(i as int).skip(1) =~= listing.skip(i as int + 1));
            }
            match remote.get_ref_if_not_empty(&names[i]) {
                Some(v) => {
                    let ghost prev = crate::base::pairs_views(r@);
                    r.push((bytes_clone(&names[i]), v.value));
                    proof {
                        assert(crate::base::pairs_views(r@) =~= prev + seq![
                            (listing[i as int], resolved_value(remote.refs_map(), listing[i as int])),
                        ]);
                        assert(crate::base::pairs_views(r@) + advertised_refs(
                            remote.refs_map(),
                            listing.skip(i as int + 1),
                        ) =~= advertised_refs(remote.refs_map(), listing));
                    }
                },
                None => {
                    proof {
                        assert(crate::base::pairs_views(r@) + advertised_refs(
                            remote.refs_map(),
                            listing.skip(i as int + 1),
                        ) =~= advertised_refs(remote.refs_map(), listing));
                    }
                },
            }
            i += 1;
        }
        proof {
            assert(listing.skip(n as int) =~= Seq::<(Seq<u8>)>::empty());
            assert(crate::base::pairs_views(r@) + advertised_refs(
                remote.refs_map(),
                listing.skip(n as int),
            ) =~= crate::base::pairs_views(r@));
        }
        r
    }

    /// Fetch from another store: copy the object closure of its
    /// branch tips, then record one tracking reference per branch.
    pub fn fetch(&mut self, remote: &Ugit)
        requires
            old(self).inv(),
            remote.inv(),
        ensures
            final(self).inv(),
            ({
                let pairs = advertised_refs(
                    remote.refs_map(),
                    ref_listing(remote.refs_seq(), remote_ref_base()),
                );
                let tips = pairs.map_values(|p: (Seq<u8>, Seq<u8>)| p.1);
                &&& final(self).objects_map() == remote.objects_map().restrict(
                    objects_closure(*remote, tips),
                ).union_prefer_right(old(self).objects_map())
                &&& final(self).refs_map() == tracking_updates(old(self).refs_map(), pairs)
            }),
            final(self).index_map() == old(self).index_map(),
            final(self).git_dir_view() == old(self).git_dir_view(),
    {
        let base = remote_ref_base_vec();
        let refs = self.get_remote_refs(remote, &base);
        let ghost pairs = crate::base::pairs_views(refs@);
        let mut oids: Vec<Vec<u8>> = Vec::new();
        let n = refs.len();
        let mut i: usize = 0;
        proof {
            assert(views_of(oids@) =~= pairs.map_values(|p: (Seq<u8>, Seq<u8>)| p.1).take(0));
        }
        while i < n
            invariant
                n == refs@.len(),
                crate::base::pairs_views(refs@) == pairs,
                i <= n,
                views_of(oids@) == pairs.map_values(|p: (Seq<u8>, Seq<u8>)| p.1).take(i as int),
            decreases n - i,
        {
            let ghost prev = oids@;
            oids.push(bytes_clone(&refs[i].1));
            proof {
                crate::bytes::lemma_views_of_push(prev, oids@[oids@.len() - 1]);
                assert(pairs[i as int] == (refs@[i as int].0@, refs@[i as int].1@));
                assert(views_of(oids@) =~= pairs.map_values(|p: (Seq<u8>, Seq<u8>)| p.1).take(
                    i as int + 1,
                ));
            }
            i += 1;
        }
        proof {
            let tips = pairs.map_values(|p: (Seq<u8>, Seq<u8>)| p.1);
            assert(tips.take(n as int) =~= tips);
        }
        let _ = self.iter_objects_in_commits_fetch(oids, remote);
        let local_base = local_refs_base_vec();
        let mut j: usize = 0;
        let ghost refs_after_pull = self.refs_map();
        let ghost objs_pulled = self.objects_map();
        proof {
            assert(pairs.skip(0) =~= pairs);
        }
        while j < n
            invariant
                self.inv(),
                n == refs@.len(),
                crate::base::pairs_views(refs@) == pairs,
                j <= n,
                base@ == remote_ref_base(),
                local_base@ == local_refs_base(),
                tracking_updates(refs_after_pull, pairs) == tracking_updates(
                    self.refs_map(),
                    pairs.skip(j as int),
                ),
                self.objects_map() == objs_pulled,
                self.index_map() == old(self).index_map(),
                self.git_dir_view() == old(self).git_dir_view(),
            decreases n - j,
        {
            proof {
                assert(pairs.skip(j as int)[0] == pairs[j as int]);
                assert(pairs.skip(j as int).skip(1) =~= pairs.skip(j as int + 1));
                assert(pairs[j as int] == (refs@[j as int].0@, refs@[j as int].1@));
            }
            let name = &refs[j].0;
            if starts_with(name, &base) {
                let mut new_name = local_refs_base_vec();
                let suffix = subvec(name, base.len(), name.len());
                append_bytes(&mut new_name, &suffix);
                proof {
                    assert(new_name@ =~= local_refs_base() + pairs[j as int].0.skip(
                        remote_ref_base().len() as int,
                    ));
                }
                self.update_ref(&new_name, RefValue::direct(bytes_clone(&refs[j].1)), true);
                proof {
                    assert(crate::data::ref_content(false, pairs[j as int].1)
                        == pairs[j as int].1);
                }
            }
            j += 1;
        }
        proof {
            assert(pairs.skip(n as int) =~= Seq::<(Seq<u8>, Seq<u8>)>::empty());
        }
    }
}

/// The advertised tip values that already exist in `u`'s store.
pub open spec fn known_tips(u: Ugit, pairs: Seq<(Seq<u8>, Seq<u8>)>) -> Seq<Seq<u8>>
    decreases pairs.len(),
{
    if pairs.len() == 0 {
        Seq::empty()
    } else {
        let rest = known_tips(u, pairs.skip(1));
        if u.objects_map().contains_key(pairs[0].1) {
            seq![pairs[0].1] + rest
        } else {
            rest
        }
    }
}

impl Ugit {
    /// Push a reference to another store: copy the objects of its
    /// closure that the other store's advertised tips do not already
    /// reach, then point the remote reference at the local tip.
    /// Reports whether the local reference resolved.
    pub fn push(&self, remote: &mut Ugit, ref_name: &Vec<u8>) -> (r: bool)
        requires
            self.inv(),
            old(remote).inv(),
        ensures
            final(remote).inv(),
            final(remote).index_map() == old(remote).index_map(),
            final(remote).git_dir_view() == old(remote).git_dir_view(),
            ({
                let rv = resolved_value(self.refs_map(), ref_name@);
                &&& (rv.len() == 0 ==> !r && final(remote).objects_map() == old(
                    remote,
                ).objects_map() && final(remote).refs_map() == old(remote).refs_map())
                &&& (rv.len() > 0 ==> r && ({
                    let advertised = advertised_refs(
                        old(remote).refs_map(),
                        ref_listing(old(remote).refs_seq(), Seq::empty()),
                    );
                    let known = known_tips(*self, advertised);
                    let to_send = objects_closure(*self, seq![rv]).difference(
                        objects_closure(*self, known),
                    );
                    &&& final(remote).objects_map() == self.objects_map().restrict(
                        to_send,
                    ).union_prefer_right(old(remote).objects_map())
                    &&& final(remote).refs_map() == old(remote).refs_map().insert(
                        crate::data::resolve_ref(
                            old(remote).refs_map(),
                            ref_name@,
                            true,
                            crate::data::ref_fuel(old(remote).refs_map()),
                        ).0,
                        rv,
                    )
                }))
            }),
    {
        let empty_prefix: Vec<u8> = Vec::new();
        let advertised = self.get_remote_refs(remote, &empty_prefix);
        let ghost pairs = crate::base::pairs_views(advertised@);
        let ref_val = match self.get_ref_if_not_empty(ref_name) {
            Some(v) => v.value,
            None => {
                return false;
            },
        };
        // the advertised tips we already hold locally
        let mut known: Vec<Vec<u8>> = Vec::new();
        let n = advertised.len();
        let mut i: usize = 0;
        proof {
            assert(pairs.skip(0) =~= pairs);
            assert(known_tips(*self, pairs) == views_of(known@) + known_tips(
                *self,
                pairs.skip(0),
            ));
        }
        while i < n
            invariant
                self.inv(),
                n == advertised@.len(),
                crate::base::pairs_views(advertised@) == pairs,
                i <= n,
                known_tips(*self, pairs) == views_of(known@) + known_tips(
                    *self,
                    pairs.skip(i as int),
                ),
            decreases n - i,
        {
            proof {
                assert(pairs.skip(i as int)[0] == pairs[i as int]);
                assert(pairs.skip(i as int).skip(1) =~= pairs.skip(i as int + 1));
                assert(pairs[i as int] == (advertised@[i as int].0@, advertised@[i as int].1@));
            }
            if self.objects_exists(&advertised[i].1) {
                let ghost prev = known@;
                known.push(bytes_clone(&advertised[i].1));
                proof {
                    crate::bytes::lemma_views_of_push(prev, known@[known@.len() - 1]);
                    assert(views_of(known@) =~= views_of(prev) + seq![pairs[i as int].1]);
                    assert(views_of(known@) + known_tips(*self, pairs.skip(i as int + 1))
                        =~= known_tips(*self, pairs));
                }
            } else {
                proof {
                    assert(views_of(known@) + known_tips(*self, pairs.skip(i as int + 1))
                        =~= known_tips(*self, pairs));
                }
            }
            i += 1;
        }
        proof {
            assert(pairs.skip(n as int) =~= Seq::<(Seq<u8>, Seq<u8>)>::empty());
            assert(views_of(known@) + known_tips(*self, pairs.skip(n as int)) =~= views_of(
                known@,
            ));
        }
        let known_closure = self.iter_objects_in_commits(known);
        let mut seed: Vec<Vec<u8>> = Vec::new();
        seed.push(bytes_clone(&ref_val));
        proof {
            assert(views_of(seed@) =~= seq![ref_val@]);
        }
        let local_closure = self.iter_objects_in_commits(seed);
        // what the remote still misses
        let mut to_send: Vec<Vec<u8>> = Vec::new();
        let m = local_closure.len();
        let mut j: usize = 0;
        proof {
            assert(views_of(to_send@).to_set() =~= local_closure.elem_seq().take(
                0,
            ).to_set().difference(known_closure@)) by {
                assert forall|y: Seq<u8>| !(#[trigger] views_of(to_send@).contains(y)) by {}
                assert forall|y: Seq<u8>|
                    !(#[trigger] local_closure.elem_seq().take(0).contains(y)) by {}
            }
        }
        while j < m
            invariant
                local_closure.inv(),
                known_closure.inv(),
                m == local_closure.elem_seq().len(),
                j <= m,
                views_of(to_send@).to_set() == local_closure.elem_seq().take(
                    j as int,
                ).to_set().difference(known_closure@),
            decreases m - j,
        {
            let x = local_closure.at(j);
            let ghost t0 = local_closure.elem_seq().take(j as int);
            let ghost tn = local_closure.elem_seq().take(j as int + 1);
            let ghost xv = local_closure.elem_seq()[j as int];
            let ghost pre_views = views_of(to_send@);
            proof {
                assert(tn =~= t0.push(xv));
            }
            let keep = !known_closure.contains(&x);
            if keep {
                let ghost prev = to_send@;
                to_send.push(x);
                proof {
                    crate::bytes::lemma_views_of_push(prev, to_send@[to_send@.len() - 1]);
                    assert(views_of(to_send@) == pre_views.push(xv));
                }
            }
            proof {
                assert(views_of(to_send@).to_set() =~= tn.to_set().difference(known_closure@)) by {
                    assert forall|y: Seq<u8>| #[trigger] views_of(to_send@).to_set().contains(
                        y,
                    ) implies tn.to_set().difference(known_closure@).contains(y) by {
                        assert(views_of(to_send@).contains(y));
                        let q = choose|q: int|
                            0 <= q < views_of(to_send@).len() && views_of(to_send@)[q] == y;
                        if q < pre_views.len() {
                            assert(pre_views[q] == y);
                            assert(pre_views.contains(y));
                            assert(pre_views.to_set().contains(y));
                            assert(t0.to_set().difference(known_closure@).contains(y));
                            assert(t0.contains(y));
                            let w = choose|w: int| 0 <= w < t0.len() && t0[w] == y;
                            assert(tn[w] == y);
                            assert(tn.contains(y));
                        } else {
                            assert(keep && y == xv);
                            assert(tn[j as int] == y);
                            assert(tn.contains(y));
                            assert(!known_closure@.contains(y));
                        }
                    }
                    assert forall|y: Seq<u8>| #[trigger] tn.to_set().difference(
                        known_closure@,
                    ).contains(y) implies views_of(to_send@).to_set().contains(y) by {
                        assert(tn.contains(y));
                        let q = choose|q: int| 0 <= q < tn.len() && tn[q] == y;
                        if q < j as int {
                            assert(t0[q] == y);
                            assert(t0.contains(y));
                            assert(t0.to_set().contains(y));
                            assert(pre_views.to_set().contains(y));
                            assert(pre_views.contains(y));
                            let w = choose|w: int| 0 <= w < pre_views.len() && pre_views[w] == y;
                            assert(views_of(to_send@)[w] == y);
                            assert(views_of(to_send@).contains(y));
                        } else {
                            assert(y == xv);
                            assert(!known_closure@.contains(xv));
                            assert(keep);
                            assert(views_of(to_send@)[pre_views.len() as int] == y);
                            assert(views_of(to_send@).contains(y));
                        }
                    }
                }
            }
            j += 1;
        }
        proof {
            assert(local_closure.elem_seq().take(m as int) =~= local_closure.elem_seq());
        }
        remote.pull_objects(&to_send, self);
        proof {
            local_closure.lemma_char();
            assert(local_closure.elem_seq().to_set() =~= local_closure@) by {
                assert forall|y: Seq<u8>| #[trigger] local_closure.elem_seq().to_set().contains(
                    y,
                ) implies local_closure@.contains(y) by {
                    assert(local_closure.elem_seq().contains(y));
                    let q = choose|q: int|
                        0 <= q < local_closure.elem_seq().len() && local_closure.elem_seq()[q] == y;
                }
                assert forall|y: Seq<u8>| #[trigger] local_closure@.contains(y) implies local_closure.elem_seq().to_set().contains(
                    y,
                ) by {
                    let q = choose|q: int|
                        0 <= q < local_closure.elem_seq().len() && local_closure.elem_seq()[q] == y;
                    assert(local_closure.elem_seq().contains(y));
                }
            }
            assert(self.objects_map().restrict(views_of(to_send@).to_set()).union_prefer_right(
                old(remote).objects_map(),
            ) =~= self.objects_map().restrict(
                objects_closure(*self, seq![resolved_value(self.refs_map(), ref_name@)]).difference(
                    objects_closure(*self, known_tips(*self, pairs)),
                ),
            ).union_prefer_right(old(remote).objects_map()));
        }
        remote.update_ref(ref_name, RefValue::direct(ref_val), true);
        proof {
            assert(crate::data::ref_content(
                false,
                resolved_value(self.refs_map(), ref_name@),
            ) == resolved_value(self.refs_map(), ref_name@));
        }
        true
    }
}

} // verus!
