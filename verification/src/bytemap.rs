//! A map from byte strings to byte strings, kept as an association
//! vector sorted strictly by key. The sorted layout makes the entry
//! order a function of the map's contents alone, which the tree
//! serialisation relies on for deterministic hashing.
use vstd::prelude::*;

use crate::bytes::{bytes_clone, bytes_eq, bytes_le, lemma_lex_le_antisym, lemma_lex_le_total,
    lemma_lex_le_trans, lex_le, lex_lt};

verus! {

/// The mathematical map described by an association list; later
/// entries win, though a well-formed `ByteMap` never repeats a key.
pub open spec fn map_of(s: Seq<(Seq<u8>, Seq<u8>)>) -> Map<Seq<u8>, Seq<u8>>
    decreases s.len(),
{
    if s.len() == 0 {
        Map::empty()
    } else {
        map_of(s.drop_last()).insert(s.last().0, s.last().1)
    }
}

/// No two entries share a key.
pub open spec fn keys_distinct(s: Seq<(Seq<u8>, Seq<u8>)>) -> bool {
    forall|i: int, j: int| 0 <= i < j < s.len() ==> (#[trigger] s[i]).0 != (#[trigger] s[j]).0
}

/// Entries are in strictly increasing key order.
pub open spec fn entries_sorted(s: Seq<(Seq<u8>, Seq<u8>)>) -> bool {
    forall|i: int, j: int| 0 <= i < j < s.len() ==> lex_lt((#[trigger] s[i]).0, (#[trigger] s[j]).0)
}

pub proof fn lemma_sorted_distinct(s: Seq<(Seq<u8>, Seq<u8>)>)
    requires
        entries_sorted(s),
    ensures
        keys_distinct(s),
{
}

/// How `map_of` answers queries, spelled out entry by entry.
pub proof fn lemma_map_of_char(s: Seq<(Seq<u8>, Seq<u8>)>)
    requires
        keys_distinct(s),
    ensures
        forall|k: Seq<u8>|
            #[trigger] map_of(s).contains_key(k) <==> exists|i: int|
                0 <= i < s.len() && (#[trigger] s[i]).0 == k,
        forall|i: int|
            0 <= i < s.len() ==> map_of(s).contains_key((#[trigger] s[i]).0) && map_of(s)[s[i].0]
                == s[i].1,
    decreases s.len(),
{
    if s.len() == 0 {
    } else {
        let d = s.drop_last();
        assert(keys_distinct(d));
        lemma_map_of_char(d);
        assert forall|i: int| 0 <= i < s.len() implies map_of(s).contains_key(
            (#[trigger] s[i]).0,
        ) && map_of(s)[s[i].0] == s[i].1 by {
            if i < s.len() - 1 {
                assert(d[i] == s[i]);
                assert(s[i].0 != s[s.len() - 1].0);
            }
        }
        assert forall|k: Seq<u8>| #[trigger] map_of(s).contains_key(k) implies exists|i: int|
            0 <= i < s.len() && (#[trigger] s[i]).0 == k by {
            if k != s.last().0 {
                let i = choose|i: int| 0 <= i < d.len() && (#[trigger] d[i]).0 == k;
                assert(d[i] == s[i]);
                assert(0 <= i < s.len() && s[i].0 == k);
            } else {
                assert(s[s.len() - 1].0 == k);
            }
        }
        assert forall|k: Seq<u8>|
            (exists|i: int| 0 <= i < s.len() && (#[trigger] s[i]).0 == k) implies map_of(
            s,
        ).contains_key(k) by {
            let i = choose|i: int| 0 <= i < s.len() && (#[trigger] s[i]).0 == k;
            if i < s.len() - 1 {
                assert(d[i] == s[i]);
            }
        }
    }
}

/// A map over byte strings, stored sorted by key.
pub struct ByteMap {
    entries: Vec<(Vec<u8>, Vec<u8>)>,
}

impl View for ByteMap {
    type V = Map<Seq<u8>, Seq<u8>>;

    open spec fn view(&self) -> Map<Seq<u8>, Seq<u8>> {
        map_of(self.kv_seq())
    }
}

impl ByteMap {
    /// The entries with keys and values as sequences, in storage order.
    pub closed spec fn kv_seq(self) -> Seq<(Seq<u8>, Seq<u8>)> {
        self.entries@.map_values(|p: (Vec<u8>, Vec<u8>)| (p.0@, p.1@))
    }

    /// Entries are strictly sorted by key.
    pub open spec fn inv(self) -> bool {
        entries_sorted(self.kv_seq())
    }

    /// Everything a caller needs to move between the map view and the
    /// entry sequence.
    pub proof fn lemma_char(self)
        requires
            self.inv(),
        ensures
            keys_distinct(self.kv_seq()),
            forall|k: Seq<u8>|
                #[trigger] self@.contains_key(k) <==> exists|i: int|
                    0 <= i < self.kv_seq().len() && (#[trigger] self.kv_seq()[i]).0 == k,
            forall|i: int|
                0 <= i < self.kv_seq().len() ==> self@.contains_key(
                    (#[trigger] self.kv_seq()[i]).0,
                ) && self@[self.kv_seq()[i].0] == self.kv_seq()[i].1,
    {
        lemma_sorted_distinct(self.kv_seq());
        lemma_map_of_char(self.kv_seq());
    }

    /// The map's domain is finite and has one element per entry.
    pub proof fn lemma_dom(self)
        requires
            self.inv(),
        ensures
            self@.dom().finite(),
            self@.dom().len() == self.kv_seq().len(),
    {
        self.lemma_char();
        let s = self.kv_seq();
        let keys = s.map_values(|p: (Seq<u8>, Seq<u8>)| p.0);
        assert forall|i: int, j: int| 0 <= i < j < keys.len() implies keys[i] != keys[j] by {
            assert(keys[i] == s[i].0);
            assert(keys[j] == s[j].0);
        }
        assert(keys.no_duplicates());
        keys.unique_seq_to_set();
        assert(self@.dom() =~= keys.to_set()) by {
            assert forall|x: Seq<u8>| #[trigger] self@.dom().contains(x) implies keys.to_set().contains(
                x,
            ) by {
                let i = choose|i: int| 0 <= i < s.len() && (#[trigger] s[i]).0 == x;
                assert(keys[i] == x);
            }
            assert forall|x: Seq<u8>| #[trigger] keys.to_set().contains(x) implies self@.dom().contains(
                x,
            ) by {
                let i = choose|i: int| 0 <= i < keys.len() && keys[i] == x;
                assert(s[i].0 == x);
            }
        }
    }

    pub fn new() -> (r: ByteMap)
        ensures
            r@ == Map::<Seq<u8>, Seq<u8>>::empty(),
            r.inv(),
            r.kv_seq() == Seq::<(Seq<u8>, Seq<u8>)>::empty(),
    {
        let r = ByteMap { entries: Vec::new() };
        proof {
            assert(r.kv_seq() =~= Seq::<(Seq<u8>, Seq<u8>)>::empty());
        }
        r
    }

    /// Number of entries.
    pub fn len(&self) -> (r: usize)
        ensures
            r == self.kv_seq().len(),
    {
        self.entries.len()
    }

    /// The entry at storage position `i`, as fresh copies.
    pub fn entry_at(&self, i: usize) -> (r: (Vec<u8>, Vec<u8>))
        requires
            i < self.kv_seq().len(),
        ensures
            (r.0@, r.1@) == self.kv_seq()[i as int],
    {
        let k = bytes_clone(&self.entries[i].0);
        let v = bytes_clone(&self.entries[i].1);
        (k, v)
    }

    /// Look a key up.
    pub fn get(&self, k: &Vec<u8>) -> (r: Option<&Vec<u8>>)
        requires
            self.inv(),
        ensures
            match r {
                Some(v) => self@.contains_key(k@) && v@ == self@[k@],
                None => !self@.contains_key(k@),
            },
    {
        proof {
            self.lemma_char();
        }
        let n = self.entries.len();
        let mut i: usize = 0;
        while i < n
            invariant
                self.inv(),
                n == self.kv_seq().len(),
                i <= n,
                forall|j: int| 0 <= j < i ==> (#[trigger] self.kv_seq()[j]).0 != k@,
            decreases n - i,
        {
            if bytes_eq(&self.entries[i].0, k) {
                proof {
                    self.lemma_char();
                    assert(self.kv_seq()[i as int].0 == k@);
                }
                return Some(&self.entries[i].1);
            }
            i += 1;
        }
        proof {
            self.lemma_char();
        }
        None
    }

    pub fn contains_key(&self, k: &Vec<u8>) -> (r: bool)
        requires
            self.inv(),
        ensures
            r == self@.contains_key(k@),
    {
        match self.get(k) {
            Some(_) => true,
            None => false,
        }
    }

    /// Insert or replace the binding for `k`.
    pub fn insert(&mut self, k: Vec<u8>, v: Vec<u8>)
        requires
            old(self).inv(),
        ensures
            final(self).inv(),
            final(self)@ == old(self)@.insert(k@, v@),
    {
        proof {
            self.lemma_char();
        }
        let ghost s0 = self.kv_seq();
        let n = self.entries.len();
        let mut i: usize = 0;
        // find the first position whose key is not below `k`
        while i < n
            invariant_except_break
                self.inv(),
                self.kv_seq() == s0,
                n == s0.len(),
                i <= n,
                forall|j: int| 0 <= j < i ==> lex_lt((#[trigger] s0[j]).0, k@),
            ensures
                self.inv(),
                self.kv_seq() == s0,
                n == s0.len(),
                i <= n,
                forall|j: int| 0 <= j < i ==> lex_lt((#[trigger] s0[j]).0, k@),
                i < n ==> !lex_lt(s0[i as int].0, k@),
            decreases n - i,
        {
            let le = bytes_le(&self.entries[i].0, &k);
            let eq = bytes_eq(&self.entries[i].0, &k);
            if !(le && !eq) {
                break ;
            }
            i += 1;
        }
        let ghost ii = i as int;
        if i < n && bytes_eq(&self.entries[i].0, &k) {
            // replace the value in place
            self.entries.remove(i);
            self.entries.insert(i, (k, v));
            proof {
                let s1 = self.kv_seq();
                assert(s1 =~= s0.update(ii, (s0[ii].0, v@)));
                assert forall|p: int, q: int| 0 <= p < q < s1.len() implies lex_lt(
                    (#[trigger] s1[p]).0,
                    (#[trigger] s1[q]).0,
                ) by {
                    assert(s1[p].0 == s0[p].0);
                    assert(s1[q].0 == s0[q].0);
                }
                assert(entries_sorted(s1));
                lemma_sorted_distinct(s0);
                lemma_sorted_distinct(s1);
                lemma_map_of_char(s0);
                lemma_map_of_char(s1);
                assert(map_of(s1) =~= map_of(s0).insert(k@, v@)) by {
                    assert forall|q: Seq<u8>| #[trigger] map_of(s1).contains_key(q) implies map_of(
                        s0,
                    ).insert(k@, v@).contains_key(q) by {
                        let j = choose|j: int| 0 <= j < s1.len() && (#[trigger] s1[j]).0 == q;
                        assert(s0[j].0 == q);
                    }
                    assert forall|q: Seq<u8>| #[trigger] map_of(s0).insert(
                        k@,
                        v@,
                    ).contains_key(q) implies map_of(s1).contains_key(q) by {
                        if q == k@ {
                            assert(s1[ii].0 == q);
                        } else {
                            let j = choose|j: int| 0 <= j < s0.len() && (#[trigger] s0[j]).0 == q;
                            assert(s1[j].0 == q);
                        }
                    }
                    assert forall|q: Seq<u8>| #[trigger] map_of(s1).contains_key(q) implies map_of(
                        s1,
                    )[q] == map_of(s0).insert(k@, v@)[q] by {
                        let j = choose|j: int| 0 <= j < s1.len() && (#[trigger] s1[j]).0 == q;
                        if j == ii {
                            assert(q == k@);
                            assert(map_of(s1)[q] == s1[ii].1);
                        } else {
                            assert(s0[j] == s1[j]);
                            assert(s0[j].0 != k@);
                        }
                    }
                }
            }
        } else {
            proof {
                lemma_sorted_distinct(s0);
                lemma_map_of_char(s0);
                // `k` is below every key at or past the stop position ...
                if ii < n {
                    lemma_lex_le_total(s0[ii].0, k@);
                    assert(lex_lt(k@, s0[ii].0));
                }
                assert forall|j: int| ii <= j < n implies lex_lt(k@, (#[trigger] s0[j]).0) by {
                    if j > ii {
                        assert(lex_lt(s0[ii].0, s0[j].0));
                        lemma_lex_le_trans(k@, s0[ii].0, s0[j].0);
                        if k@ == s0[j].0 {
                            lemma_lex_le_antisym(k@, s0[ii].0);
                        }
                    }
                }
                // ... so `k` is not a key of the old map
                assert forall|j: int| 0 <= j < n implies (#[trigger] s0[j]).0 != k@ by {}
                assert(!map_of(s0).contains_key(k@));
            }
            self.entries.insert(i, (k, v));
            proof {
                let s1 = self.kv_seq();
                assert(s1 =~= s0.insert(ii, (k@, v@)));
                s0.insert_ensures(ii, (k@, v@));
                assert forall|p: int, q: int| 0 <= p < q < s1.len() implies lex_lt(
                    (#[trigger] s1[p]).0,
                    (#[trigger] s1[q]).0,
                ) by {
                    if p < ii {
                        assert(s1[p] == s0[p]);
                    }
                    if q < ii {
                        assert(s1[q] == s0[q]);
                    }
                    if p > ii {
                        assert(s1[p] == s0[p - 1]);
                    }
                    if q > ii {
                        assert(s1[q] == s0[q - 1]);
                    }
                }
                assert(entries_sorted(s1));
                lemma_sorted_distinct(s1);
                lemma_map_of_char(s1);
                assert(map_of(s1) =~= map_of(s0).insert(k@, v@)) by {
                    assert forall|q: Seq<u8>| #[trigger] map_of(s1).contains_key(q) implies map_of(
                        s0,
                    ).insert(k@, v@).contains_key(q) by {
                        let j = choose|j: int| 0 <= j < s1.len() && (#[trigger] s1[j]).0 == q;
                        if j < ii {
                            assert(s1[j] == s0[j]);
                        } else if j > ii {
                            assert(s1[j] == s0[j - 1]);
                        }
                    }
                    assert forall|q: Seq<u8>| #[trigger] map_of(s0).insert(
                        k@,
                        v@,
                    ).contains_key(q) implies map_of(s1).contains_key(q) by {
                        if q == k@ {
                            assert(s1[ii].0 == q);
                        } else {
                            let j = choose|j: int| 0 <= j < s0.len() && (#[trigger] s0[j]).0 == q;
                            if j < ii {
                                assert(s1[j] == s0[j]);
                                assert(s1[j].0 == q);
                            } else {
                                assert(s1[j + 1] == s0[j]);
                                assert(s1[j + 1].0 == q);
                            }
                        }
                    }
                    assert forall|q: Seq<u8>| #[trigger] map_of(s1).contains_key(q) implies map_of(
                        s1,
                    )[q] == map_of(s0).insert(k@, v@)[q] by {
                        let j = choose|j: int| 0 <= j < s1.len() && (#[trigger] s1[j]).0 == q;
                        if j == ii {
                            assert(q == k@);
                            assert(map_of(s1)[q] == s1[ii].1);
                        } else if j < ii {
                            assert(s1[j] == s0[j]);
                            assert(s0[j].0 != k@);
                        } else {
                            assert(s1[j] == s0[j - 1]);
                            assert(s0[j - 1].0 != k@);
                        }
                    }
                }
            }
        }
    }

    /// Remove the binding for `k` if present.
    pub fn remove(&mut self, k: &Vec<u8>)
        requires
            old(self).inv(),
        ensures
            final(self).inv(),
            final(self)@ == old(self)@.remove(k@),
    {
        proof {
            self.lemma_char();
        }
        let ghost s0 = self.kv_seq();
        let n = self.entries.len();
        let mut i: usize = 0;
        while i < n
            invariant
                self.inv(),
                self.kv_seq() == s0,
                old(self)@ == map_of(s0),
                n == s0.len(),
                i <= n,
                forall|j: int| 0 <= j < i ==> (#[trigger] s0[j]).0 != k@,
            decreases n - i,
        {
            if bytes_eq(&self.entries[i].0, k) {
                let ghost ii = i as int;
                proof {
                    assert(s0[ii].0 == k@);
                }
                self.entries.remove(i);
                proof {
                    let s1 = self.kv_seq();
                    assert(s1 =~= s0.remove(ii));
                    s0.remove_ensures(ii);
                    assert forall|p: int, q: int| 0 <= p < q < s1.len() implies lex_lt(
                        (#[trigger] s1[p]).0,
                        (#[trigger] s1[q]).0,
                    ) by {
                        if p < ii {
                            assert(s1[p] == s0[p]);
                        } else {
                            assert(s1[p] == s0[p + 1]);
                        }
                        if q < ii {
                            assert(s1[q] == s0[q]);
                        } else {
                            assert(s1[q] == s0[q + 1]);
                        }
                    }
                    lemma_sorted_distinct(s0);
                    lemma_sorted_distinct(s1);
                    lemma_map_of_char(s0);
                    lemma_map_of_char(s1);
                    assert(map_of(s1) =~= map_of(s0).remove(k@)) by {
                        assert forall|q: Seq<u8>| #[trigger] map_of(s1).contains_key(
                            q,
                        ) implies map_of(s0).remove(k@).contains_key(q) && map_of(s1)[q] == map_of(
                            s0,
                        ).remove(k@)[q] by {
                            let j = choose|j: int| 0 <= j < s1.len() && (#[trigger] s1[j]).0 == q;
                            if j < ii {
                                assert(s0[j] == s1[j]);
                                assert(s0[j].0 != k@);
                            } else {
                                assert(s0[j + 1] == s1[j]);
                                assert(s0[ii].0 != s0[j + 1].0);
                            }
                        }
                        assert forall|q: Seq<u8>| #[trigger] map_of(s0).remove(k@).contains_key(
                            q,
                        ) implies map_of(s1).contains_key(q) by {
                            let j = choose|j: int| 0 <= j < s0.len() && (#[trigger] s0[j]).0 == q;
                            if j < ii {
                                assert(s1[j].0 == q);
                            } else {
                                assert(j != ii);
                                assert(s1[j - 1] == s0[j]);
                                assert(s1[j - 1].0 == q);
                            }
                        }
                    }
                }
                return ;
            }
            i += 1;
        }
        proof {
            self.lemma_char();
            assert(self@ =~= self@.remove(k@));
        }
    }


    /// A deep copy with the same entries.
    pub fn duplicate(&self) -> (r: ByteMap)
        ensures
            r.kv_seq() == self.kv_seq(),
            r@ == self@,
            r.inv() == self.inv(),
    {
        let mut entries: Vec<(Vec<u8>, Vec<u8>)> = Vec::new();
        let n = self.entries.len();
        let mut i: usize = 0;
        while i < n
            invariant
                n == self.entries@.len(),
                i <= n,
                entries@.len() == i,
                forall|j: int|
                    0 <= j < i ==> ((#[trigger] entries@[j]).0@, entries@[j].1@) == (
                        self.entries@[j].0@,
                        self.entries@[j].1@,
                    ),
            decreases n - i,
        {
            let k = bytes_clone(&self.entries[i].0);
            let v = bytes_clone(&self.entries[i].1);
            entries.push((k, v));
            i += 1;
        }
        let r = ByteMap { entries };
        proof {
            assert(r.kv_seq() =~= self.kv_seq());
        }
        r
    }

    /// Do two well-formed maps hold the same contents? The sorted
    /// layout is canonical, so entrywise comparison decides it.
    pub fn same_entries(&self, other: &ByteMap) -> (r: bool)
        requires
            self.inv(),
            other.inv(),
        ensures
            r == (self@ == other@),
    {
        let n = self.entries.len();
        if n != other.entries.len() {
            proof {
                if self@ == other@ {
                    lemma_canonical_entries(self.kv_seq(), other.kv_seq());
                }
            }
            return false;
        }
        let mut i: usize = 0;
        while i < n
            invariant
                self.inv(),
                other.inv(),
                n == self.kv_seq().len(),
                n == other.kv_seq().len(),
                i <= n,
                forall|j: int| 0 <= j < i ==> #[trigger] self.kv_seq()[j] == other.kv_seq()[j],
            decreases n - i,
        {
            let keys_eq = bytes_eq(&self.entries[i].0, &other.entries[i].0);
            let vals_eq = bytes_eq(&self.entries[i].1, &other.entries[i].1);
            proof {
                assert(self.kv_seq()[i as int] == (
                    self.entries@[i as int].0@,
                    self.entries@[i as int].1@,
                ));
                assert(other.kv_seq()[i as int] == (
                    other.entries@[i as int].0@,
                    other.entries@[i as int].1@,
                ));
            }
            if !(keys_eq && vals_eq) {
                proof {
                    if self@ == other@ {
                        lemma_canonical_entries(self.kv_seq(), other.kv_seq());
                    }
                }
                return false;
            }
            i += 1;
        }
        proof {
            assert(self.kv_seq() =~= other.kv_seq());
        }
        true
    }

    /// Drop every entry.
    pub fn clear(&mut self)
        ensures
            final(self).inv(),
            final(self)@ == Map::<Seq<u8>, Seq<u8>>::empty(),
            final(self).kv_seq() == Seq::<(Seq<u8>, Seq<u8>)>::empty(),
    {
        self.entries.clear();
        proof {
            assert(self.kv_seq() =~= Seq::<(Seq<u8>, Seq<u8>)>::empty());
        }
    }
}

/// Two well-formed maps with the same contents store the same entries
/// in the same order: the sorted layout is canonical.
pub proof fn lemma_canonical_entries(a: Seq<(Seq<u8>, Seq<u8>)>, b: Seq<(Seq<u8>, Seq<u8>)>)
    requires
        entries_sorted(a),
        entries_sorted(b),
        map_of(a) == map_of(b),
    ensures
        a == b,
    decreases a.len(),
{
    lemma_sorted_distinct(a);
    lemma_sorted_distinct(b);
    lemma_map_of_char(a);
    lemma_map_of_char(b);
    if a.len() == 0 {
        if b.len() > 0 {
            assert(map_of(b).contains_key(b[0].0));
        }
        assert(a =~= b);
    } else if b.len() == 0 {
        assert(map_of(a).contains_key(a[0].0));
    } else {
        // both last entries carry the maximal key, so they are equal
        let ka = a.last().0;
        let kb = b.last().0;
        assert(map_of(a).contains_key(ka)) by {
            assert(a[a.len() - 1].0 == ka);
        }
        assert(map_of(b).contains_key(ka));
        let ia = choose|i: int| 0 <= i < b.len() && (#[trigger] b[i]).0 == ka;
        assert(map_of(b).contains_key(kb)) by {
            assert(b[b.len() - 1].0 == kb);
        }
        assert(map_of(a).contains_key(kb));
        let ib = choose|i: int| 0 <= i < a.len() && (#[trigger] a[i]).0 == kb;
        if ia < b.len() - 1 {
            // ka sits strictly below kb, and kb sits at or below ka: contradiction
            assert(lex_lt(ka, kb));
            if ib < a.len() - 1 {
                assert(lex_lt(kb, ka));
                lemma_lex_le_antisym(ka, kb);
            } else {
                assert(kb == ka);
            }
            assert(false);
        }
        assert(ka == kb);
        assert(a.last().1 == map_of(a)[ka]) by {
            assert(a[a.len() - 1].0 == ka);
        }
        assert(b.last().1 == map_of(b)[ka]) by {
            assert(b[b.len() - 1].0 == ka);
        }
        assert(a.last() == b.last());
        // the leading entries describe the same map with the last key removed
        assert(map_of(a.drop_last()) =~= map_of(a).remove(ka)) by {
            assert(keys_distinct(a.drop_last()));
            lemma_map_of_char(a.drop_last());
            assert forall|q: Seq<u8>| #[trigger] map_of(a.drop_last()).contains_key(q) implies map_of(
                a,
            ).remove(ka).contains_key(q) && map_of(a.drop_last())[q] == map_of(a).remove(ka)[q] by {
                let j = choose|j: int|
                    0 <= j < a.drop_last().len() && (#[trigger] a.drop_last()[j]).0 == q;
                assert(a[j] == a.drop_last()[j]);
                assert(a[j].0 != ka);
            }
            assert forall|q: Seq<u8>| #[trigger] map_of(a).remove(ka).contains_key(q) implies map_of(
                a.drop_last(),
            ).contains_key(q) by {
                let j = choose|j: int| 0 <= j < a.len() && (#[trigger] a[j]).0 == q;
                assert(j != a.len() - 1);
                assert(a.drop_last()[j].0 == q);
            }
        }
        assert(map_of(b.drop_last()) =~= map_of(b).remove(ka)) by {
            assert(keys_distinct(b.drop_last()));
            lemma_map_of_char(b.drop_last());
            assert forall|q: Seq<u8>| #[trigger] map_of(b.drop_last()).contains_key(q) implies map_of(
                b,
            ).remove(ka).contains_key(q) && map_of(b.drop_last())[q] == map_of(b).remove(ka)[q] by {
                let j = choose|j: int|
                    0 <= j < b.drop_last().len() && (#[trigger] b.drop_last()[j]).0 == q;
                assert(b[j] == b.drop_last()[j]);
                assert(b[j].0 != ka);
            }
            assert forall|q: Seq<u8>| #[trigger] map_of(b).remove(ka).contains_key(q) implies map_of(
                b.drop_last(),
            ).contains_key(q) by {
                let j = choose|j: int| 0 <= j < b.len() && (#[trigger] b[j]).0 == q;
                assert(j != b.len() - 1);
                assert(b.drop_last()[j].0 == q);
            }
        }
        assert(entries_sorted(a.drop_last()));
        assert(entries_sorted(b.drop_last()));
        lemma_canonical_entries(a.drop_last(), b.drop_last());
        assert(a =~= a.drop_last().push(a.last()));
        assert(b =~= b.drop_last().push(b.last()));
    }
}

} // verus!
