//! An association list of 32-byte keys and values, kept sorted by key.
//!
//! It stands in for an ordered map wherever a set of touched tree leaves must
//! be carried around: in the tracer, in a memory proof, and in the verifier's
//! restored tree.  Keeping the entries sorted and free of duplicates makes
//! the list a canonical representation of its map.

use vstd::prelude::*;
use crate::bytes32::{lex_lt, lemma_lex_lt_total, lemma_lex_lt_trans, Bytes32};

verus! {

/// The map described by an entry list, later entries overriding earlier ones.
pub open spec fn map_of(s: Seq<(Seq<u8>, Seq<u8>)>) -> Map<Seq<u8>, Seq<u8>>
    decreases s.len(),
{
    if s.len() == 0 {
        Map::empty()
    } else {
        map_of(s.drop_last()).insert(s.last().0, s.last().1)
    }
}

/// A key is in the map of a list exactly when some entry carries it.
pub proof fn lemma_map_of_dom(s: Seq<(Seq<u8>, Seq<u8>)>, k: Seq<u8>)
    ensures
        map_of(s).dom().contains(k) <==> exists|i: int| 0 <= i < s.len() && s[i].0 == k,
    decreases s.len(),
{
    if s.len() > 0 {
        lemma_map_of_dom(s.drop_last(), k);
        if s.last().0 == k {
            assert(s[s.len() - 1].0 == k);
        } else if map_of(s).dom().contains(k) {
            let i = choose|i: int| 0 <= i < s.len() - 1 && s.drop_last()[i].0 == k;
            assert(s[i].0 == k);
        } else {
            assert(forall|i: int| 0 <= i < s.len() - 1 ==> s.drop_last()[i] == s[i]);
        }
    }
}

/// With no duplicate keys, the map of a list sends each entry's key to that
/// entry's value.
pub proof fn lemma_map_of_index(s: Seq<(Seq<u8>, Seq<u8>)>, i: int)
    requires
        0 <= i < s.len(),
        forall|p: int, q: int| 0 <= p < q < s.len() ==> s[p].0 != s[q].0,
    ensures
        map_of(s).dom().contains(s[i].0),
        map_of(s)[s[i].0] == s[i].1,
    decreases s.len(),
{
    lemma_map_of_dom(s, s[i].0);
    if i < s.len() - 1 {
        assert(forall|p: int, q: int|
            0 <= p < q < s.len() - 1 ==> s.drop_last()[p].0 != s.drop_last()[q].0);
        lemma_map_of_index(s.drop_last(), i);
        assert(s[i].0 != s.last().0);
    }
}

/// An association list of [`Bytes32`] pairs, sorted strictly by key.
#[derive(Debug)]
pub struct KvList {
    list: Vec<(Bytes32, Bytes32)>,
}

impl Clone for KvList {
    /// Cloning keeps the entries.
    fn clone(&self) -> (r: Self)
        ensures
            r.entries() == self.entries(),
    {
        let mut r = KvList { list: Vec::new() };
        let mut i: usize = 0;
        while i < self.list.len()
            invariant
                0 <= i <= self.entries().len(),
                self.entries().len() == self.list@.len(),
                r.entries() =~= self.entries().subrange(0, i as int),
            decreases self.list@.len() - i,
        {
            let k = self.list[i].0.clone();
            let v = self.list[i].1.clone();
            r.push_entry(k, v);
            proof {
                assert(r.entries() =~= self.entries().subrange(0, i + 1));
            }
            i = i + 1;
        }
        proof {
            assert(r.entries() =~= self.entries());
        }
        r
    }
}

impl View for KvList {
    type V = Map<Seq<u8>, Seq<u8>>;

    open spec fn view(&self) -> Map<Seq<u8>, Seq<u8>> {
        map_of(self.entries())
    }
}

impl KvList {
    /// The entries as pairs of byte sequences, in storage order.
    pub closed spec fn entries(&self) -> Seq<(Seq<u8>, Seq<u8>)> {
        Seq::new(self.list@.len(), |i: int| (self.list@[i].0@, self.list@[i].1@))
    }

    /// Entries are sorted strictly by key and hold 32-byte words.
    pub open spec fn wf(&self) -> bool {
        &&& forall|p: int, q: int|
            0 <= p < q < self.entries().len() ==> lex_lt(
                #[trigger] self.entries()[p].0,
                #[trigger] self.entries()[q].0,
            )
        &&& forall|i: int|
            0 <= i < self.entries().len() ==> (#[trigger] self.entries()[i].0.len() == 32
                && self.entries()[i].1.len() == 32)
    }

    /// In a well-formed list no two entries share a key.
    pub proof fn lemma_keys_distinct(&self)
        requires
            self.wf(),
        ensures
            forall|p: int, q: int|
                0 <= p < q < self.entries().len() ==> (#[trigger] self.entries()[p].0)
                    != (#[trigger] self.entries()[q].0),
    {
        assert forall|p: int, q: int| 0 <= p < q < self.entries().len() implies (
        #[trigger] self.entries()[p].0) != (#[trigger] self.entries()[q].0) by {
            lemma_lex_lt_total(self.entries()[p].0, self.entries()[q].0);
        }
    }

    /// The empty list.
    pub fn new() -> (r: KvList)
        ensures
            r.wf(),
            r@ == Map::<Seq<u8>, Seq<u8>>::empty(),
            r.entries() == Seq::<(Seq<u8>, Seq<u8>)>::empty(),
    {
        let r = KvList { list: Vec::new() };
        assert(r.entries() =~= Seq::<(Seq<u8>, Seq<u8>)>::empty());
        r
    }

    /// How many entries the list holds.
    pub fn len(&self) -> (r: usize)
        ensures
            r == self.entries().len(),
    {
        self.list.len()
    }

    /// The key of the entry at `i`.
    pub fn key_at(&self, i: usize) -> (r: Bytes32)
        requires
            i < self.entries().len(),
        ensures
            r@ == self.entries()[i as int].0,
    {
        self.list[i].0.clone()
    }

    /// The value of the entry at `i`.
    pub fn value_at(&self, i: usize) -> (r: Bytes32)
        requires
            i < self.entries().len(),
        ensures
            r@ == self.entries()[i as int].1,
    {
        self.list[i].1.clone()
    }

    /// The entries as a fresh vector of pairs.
    pub fn to_pairs(&self) -> (r: Vec<(Bytes32, Bytes32)>)
        ensures
            r@.len() == self.entries().len(),
            forall|i: int|
                0 <= i < r@.len() ==> ((#[trigger] r@[i]).0@ == self.entries()[i].0 && r@[i].1@
                    == self.entries()[i].1),
    {
        let mut r: Vec<(Bytes32, Bytes32)> = Vec::new();
        let mut i: usize = 0;
        while i < self.list.len()
            invariant
                0 <= i <= self.entries().len(),
                self.entries().len() == self.list@.len(),
                r@.len() == i,
                forall|j: int|
                    0 <= j < i ==> ((#[trigger] r@[j]).0@ == self.entries()[j].0 && r@[j].1@
                        == self.entries()[j].1),
            decreases self.list@.len() - i,
        {
            let k = self.list[i].0.clone();
            let v = self.list[i].1.clone();
            r.push((k, v));
            i = i + 1;
        }
        r
    }

    /// Append an entry whose key is known to come after every present key.
    fn push_entry(&mut self, key: Bytes32, value: Bytes32)
        ensures
            final(self).entries() == old(self).entries().push((key@, value@)),
    {
        self.list.push((key, value));
        assert(self.entries() =~= old(self).entries().push((key@, value@)));
    }

    /// Find the index of `key`, if present.
    fn find(&self, key: &Bytes32) -> (r: Option<usize>)
        ensures
            match r {
                Some(i) => i < self.entries().len() && self.entries()[i as int].0 == key@,
                None => forall|i: int|
                    0 <= i < self.entries().len() ==> (#[trigger] self.entries()[i]).0 != key@,
            },
    {
        let mut i: usize = 0;
        while i < self.list.len()
            invariant
                0 <= i <= self.entries().len(),
                self.entries().len() == self.list@.len(),
                forall|j: int|
                    0 <= j < i ==> (#[trigger] self.entries()[j]).0 != key@,
            decreases self.list@.len() - i,
        {
            if self.list[i].0.eq(key) {
                return Some(i);
            }
            i = i + 1;
        }
        None
    }

    /// Whether `key` has an entry.
    pub fn contains_key(&self, key: &Bytes32) -> (r: bool)
        requires
            self.wf(),
        ensures
            r == self@.dom().contains(key@),
    {
        let found = self.find(key);
        proof {
            lemma_map_of_dom(self.entries(), key@);
        }
        match found {
            Some(_) => true,
            None => false,
        }
    }

    /// The value under `key`, if present.
    pub fn get(&self, key: &Bytes32) -> (r: Option<Bytes32>)
        requires
            self.wf(),
        ensures
            match r {
                Some(v) => self@.dom().contains(key@) && v@ == self@[key@],
                None => !self@.dom().contains(key@),
            },
    {
        let found = self.find(key);
        proof {
            lemma_map_of_dom(self.entries(), key@);
        }
        match found {
            Some(i) => {
                proof {
                    self.lemma_keys_distinct();
                    lemma_map_of_index(self.entries(), i as int);
                }
                Some(self.list[i].1.clone())
            },
            None => None,
        }
    }

    /// Insert or overwrite the entry under `key`.
    pub fn insert(&mut self, key: Bytes32, value: Bytes32)
        requires
            old(self).wf(),
        ensures
            final(self).wf(),
            final(self)@ == old(self)@.insert(key@, value@),
            old(self)@.dom().contains(key@) ==> final(self).entries().len() == old(
                self,
            ).entries().len(),
            !old(self)@.dom().contains(key@) ==> final(self).entries().len() == old(
                self,
            ).entries().len() + 1,
            (forall|i: int|
                0 <= i < old(self).entries().len() ==> lex_lt(
                    (#[trigger] old(self).entries()[i]).0,
                    key@,
                )) ==> final(self).entries() == old(self).entries().push((key@, value@)),
    {
        proof {
            use_type_invariant(&key);
            use_type_invariant(&value);
            self.lemma_keys_distinct();
        }
        let ghost old_entries = self.entries();
        let n = self.list.len();
        let mut i: usize = 0;
        while i < n && self.list[i].0.lt(&key)
            invariant
                0 <= i <= n,
                n == self.list@.len(),
                self.entries().len() == self.list@.len(),
                self.entries() == old_entries,
                forall|j: int| 0 <= j < i ==> lex_lt((#[trigger] self.entries()[j]).0, key@),
            decreases n - i,
        {
            i = i + 1;
        }
        // `i` is the first index whose key is not below `key`.
        if i < n && self.list[i].0.eq(&key) {
            self.list[i] = (key, value);
            proof {
                assert(self.entries() =~= old_entries.update(i as int, (key@, value@)));
                self.lemma_insert_replaced(old_entries, key@, value@, i as int);
                lemma_lex_lt_total(key@, key@);
                assert(!lex_lt(old_entries[i as int].0, key@));
            }
        } else {
            proof {
                if i < n {
                    lemma_lex_lt_total(old_entries[i as int].0, key@);
                }
            }
            self.list.insert(i, (key, value));
            proof {
                assert(self.entries() =~= old_entries.insert(i as int, (key@, value@)));
                self.lemma_insert_fresh(old_entries, key@, value@, i as int);
            }
        }
    }

    /// After overwriting index `i`, the list realizes the updated map.
    proof fn lemma_insert_replaced(
        &self,
        old_entries: Seq<(Seq<u8>, Seq<u8>)>,
        key: Seq<u8>,
        value: Seq<u8>,
        i: int,
    )
        requires
            0 <= i < old_entries.len(),
            old_entries[i].0 == key,
            key.len() == 32,
            value.len() == 32,
            self.entries() == old_entries.update(i, (key, value)),
            forall|p: int, q: int|
                0 <= p < q < old_entries.len() ==> lex_lt(
                    #[trigger] old_entries[p].0,
                    #[trigger] old_entries[q].0,
                ),
            forall|j: int|
                0 <= j < old_entries.len() ==> (#[trigger] old_entries[j].0.len() == 32
                    && old_entries[j].1.len() == 32),
        ensures
            self.wf(),
            map_of(self.entries()) == map_of(old_entries).insert(key, value),
            map_of(old_entries).dom().contains(key),
            self.entries().len() == old_entries.len(),
    {
        let s = self.entries();
        assert(forall|j: int| 0 <= j < s.len() && j != i ==> s[j] == old_entries[j]);
        assert(forall|p: int, q: int| 0 <= p < q < s.len() ==> lex_lt(s[p].0, s[q].0));
        assert(self.wf());
        assert forall|p: int, q: int| 0 <= p < q < old_entries.len() implies old_entries[p].0
            != old_entries[q].0 by {
            lemma_lex_lt_total(old_entries[p].0, old_entries[q].0);
        }
        assert forall|p: int, q: int| 0 <= p < q < s.len() implies s[p].0 != s[q].0 by {
            lemma_lex_lt_total(s[p].0, s[q].0);
        }
        let m1 = map_of(s);
        let m2 = map_of(old_entries).insert(key, value);
        assert forall|k: Seq<u8>| m1.dom().contains(k) <==> m2.dom().contains(k) by {
            lemma_map_of_dom(s, k);
            lemma_map_of_dom(old_entries, k);
        }
        assert forall|k: Seq<u8>| m1.dom().contains(k) implies m1[k] == m2[k] by {
            lemma_map_of_dom(s, k);
            let j = choose|j: int| 0 <= j < s.len() && s[j].0 == k;
            lemma_map_of_index(s, j);
            if k != key {
                assert(old_entries[j].0 == k);
                lemma_map_of_index(old_entries, j);
            }
        }
        assert(m1 =~= m2);
        lemma_map_of_dom(old_entries, key);
    }

    /// After inserting a fresh entry at index `i`, the list realizes the
    /// updated map.
    proof fn lemma_insert_fresh(
        &self,
        old_entries: Seq<(Seq<u8>, Seq<u8>)>,
        key: Seq<u8>,
        value: Seq<u8>,
        i: int,
    )
        requires
            0 <= i <= old_entries.len(),
            key.len() == 32,
            value.len() == 32,
            forall|j: int| 0 <= j < i ==> lex_lt(#[trigger] old_entries[j].0, key),
            i < old_entries.len() ==> lex_lt(key, old_entries[i].0),
            self.entries() == old_entries.insert(i, (key, value)),
            forall|p: int, q: int|
                0 <= p < q < old_entries.len() ==> lex_lt(
                    #[trigger] old_entries[p].0,
                    #[trigger] old_entries[q].0,
                ),
            forall|j: int|
                0 <= j < old_entries.len() ==> (#[trigger] old_entries[j].0.len() == 32
                    && old_entries[j].1.len() == 32),
        ensures
            self.wf(),
            map_of(self.entries()) == map_of(old_entries).insert(key, value),
            !map_of(old_entries).dom().contains(key),
            self.entries().len() == old_entries.len() + 1,
            i == old_entries.len() ==> self.entries() == old_entries.push((key, value)),
    {
        let s = self.entries();
        assert(s.len() == old_entries.len() + 1);
        assert(forall|j: int| 0 <= j < i ==> s[j] == old_entries[j]);
        assert(s[i] == (key, value));
        assert(forall|j: int| i < j < s.len() ==> s[j] == old_entries[j - 1]);
        assert forall|p: int, q: int| 0 <= p < q < s.len() implies lex_lt(
            (#[trigger] self.entries()[p]).0,
            (#[trigger] self.entries()[q]).0,
        ) by {
            if q > i && q - 1 > i && i < old_entries.len() {
                lemma_lex_lt_trans(key, old_entries[i].0, old_entries[q - 1].0);
            }
            if p < i && q > i {
                lemma_lex_lt_trans(s[p].0, key, s[q].0);
            }
        }
        assert forall|j: int| 0 <= j < s.len() implies ((#[trigger] self.entries()[j]).0.len()
            == 32 && self.entries()[j].1.len() == 32) by {
            if j > i {
                assert(s[j] == old_entries[j - 1]);
            }
        }
        assert(self.wf());
        assert forall|p: int, q: int| 0 <= p < q < old_entries.len() implies old_entries[p].0
            != old_entries[q].0 by {
            lemma_lex_lt_total(old_entries[p].0, old_entries[q].0);
        }
        assert forall|p: int, q: int| 0 <= p < q < s.len() implies s[p].0 != s[q].0 by {
            lemma_lex_lt_total(s[p].0, s[q].0);
        }
        assert forall|j: int| 0 <= j < old_entries.len() implies old_entries[j].0 != key by {
            if j > i {
                lemma_lex_lt_trans(key, old_entries[i].0, old_entries[j].0);
            }
            lemma_lex_lt_total(old_entries[j].0, key);
        }
        let m1 = map_of(s);
        let m2 = map_of(old_entries).insert(key, value);
        assert forall|k: Seq<u8>| m1.dom().contains(k) <==> m2.dom().contains(k) by {
            lemma_map_of_dom(s, k);
            lemma_map_of_dom(old_entries, k);
            if k != key && m1.dom().contains(k) {
                let j = choose|j: int| 0 <= j < s.len() && s[j].0 == k;
                if j < i {
                    assert(old_entries[j].0 == k);
                } else {
                    assert(old_entries[j - 1].0 == k);
                }
            }
            if k != key && m2.dom().contains(k) {
                let j = choose|j: int| 0 <= j < old_entries.len() && old_entries[j].0 == k;
                if j < i {
                    assert(s[j].0 == k);
                } else {
                    assert(s[j + 1].0 == k);
                }
            }
        }
        assert forall|k: Seq<u8>| m1.dom().contains(k) implies m1[k] == m2[k] by {
            lemma_map_of_dom(s, k);
            let j = choose|j: int| 0 <= j < s.len() && s[j].0 == k;
            lemma_map_of_index(s, j);
            if k != key {
                if j < i {
                    assert(old_entries[j].0 == k);
                    lemma_map_of_index(old_entries, j);
                } else {
                    assert(old_entries[j - 1].0 == k);
                    lemma_map_of_index(old_entries, j - 1);
                }
            }
        }
        assert(m1 =~= m2);
        lemma_map_of_dom(old_entries, key);
        if i == old_entries.len() {
            assert(s =~= old_entries.push((key, value)));
        }
    }
}

} // verus!
