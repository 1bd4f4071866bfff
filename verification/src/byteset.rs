//! A set of byte strings, backed by a `ByteMap` with empty values.
use vstd::prelude::*;

use crate::bytemap::ByteMap;

verus! {

/// A finite set of byte strings with deterministic iteration order.
pub struct ByteSet {
    keys: ByteMap,
}

impl View for ByteSet {
    type V = Set<Seq<u8>>;

    closed spec fn view(&self) -> Set<Seq<u8>> {
        self.keys@.dom()
    }
}

impl ByteSet {
    pub closed spec fn inv(self) -> bool {
        self.keys.inv()
    }

    /// The members in storage order.
    pub closed spec fn elem_seq(self) -> Seq<Seq<u8>> {
        self.keys.kv_seq().map_values(|p: (Seq<u8>, Seq<u8>)| p.0)
    }

    /// Membership matches the stored element sequence.
    pub proof fn lemma_char(self)
        requires
            self.inv(),
        ensures
            forall|k: Seq<u8>|
                #[trigger] self@.contains(k) <==> exists|i: int|
                    0 <= i < self.elem_seq().len() && self.elem_seq()[i] == k,
            forall|i: int|
                0 <= i < self.elem_seq().len() ==> self@.contains(#[trigger] self.elem_seq()[i]),
            self@.finite(),
            self@.len() == self.elem_seq().len(),
    {
        self.keys.lemma_char();
        self.keys.lemma_dom();
        let s = self.keys.kv_seq();
        let e = self.elem_seq();
        assert forall|k: Seq<u8>| #[trigger] self@.contains(k) implies exists|i: int|
            0 <= i < e.len() && e[i] == k by {
            let i = choose|i: int| 0 <= i < s.len() && (#[trigger] s[i]).0 == k;
            assert(e[i] == k);
        }
        assert forall|k: Seq<u8>|
            (exists|i: int| 0 <= i < e.len() && e[i] == k) implies self@.contains(k) by {
            let i = choose|i: int| 0 <= i < e.len() && e[i] == k;
            assert(s[i].0 == k);
        }
    }

    /// Members are stored in strictly increasing order.
    pub proof fn lemma_sorted(self)
        requires
            self.inv(),
        ensures
            forall|i: int, j: int|
                0 <= i < j < self.elem_seq().len() ==> crate::bytes::lex_lt(
                    #[trigger] self.elem_seq()[i],
                    #[trigger] self.elem_seq()[j],
                ),
    {
        assert forall|i: int, j: int| 0 <= i < j < self.elem_seq().len() implies crate::bytes::lex_lt(
            #[trigger] self.elem_seq()[i],
            #[trigger] self.elem_seq()[j],
        ) by {
            assert(self.elem_seq()[i] == (#[trigger] self.keys.kv_seq()[i]).0);
            assert(self.elem_seq()[j] == (#[trigger] self.keys.kv_seq()[j]).0);
        }
    }

    pub fn new() -> (r: ByteSet)
        ensures
            r@ == Set::<Seq<u8>>::empty(),
            r.inv(),
            r.elem_seq() == Seq::<Seq<u8>>::empty(),
    {
        let r = ByteSet { keys: ByteMap::new() };
        proof {
            assert(r@ =~= Set::<Seq<u8>>::empty());
            assert(r.elem_seq() =~= Seq::<Seq<u8>>::empty());
        }
        r
    }

    pub fn len(&self) -> (r: usize)
        ensures
            r == self.elem_seq().len(),
    {
        self.keys.len()
    }

    /// The member at storage position `i`, as a fresh copy.
    pub fn at(&self, i: usize) -> (r: Vec<u8>)
        requires
            i < self.elem_seq().len(),
        ensures
            r@ == self.elem_seq()[i as int],
    {
        let (k, _) = self.keys.entry_at(i);
        k
    }

    pub fn contains(&self, k: &Vec<u8>) -> (r: bool)
        requires
            self.inv(),
        ensures
            r == self@.contains(k@),
    {
        self.keys.contains_key(k)
    }

    pub fn insert(&mut self, k: Vec<u8>)
        requires
            old(self).inv(),
        ensures
            final(self).inv(),
            final(self)@ == old(self)@.insert(k@),
    {
        self.keys.insert(k, Vec::new());
        proof {
            assert(self@ =~= old(self)@.insert(k@));
        }
    }
}

} // verus!
