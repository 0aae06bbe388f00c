use crate::strings::{
    chars_lt, lemma_chars_lt_irreflexive, lemma_chars_lt_total, lemma_chars_lt_transitive,
    str_order, StrOrder,
};
use vstd::prelude::*;

verus! {

/// The keys are in strictly increasing order.
pub open spec fn keys_sorted(ks: Seq<Seq<char>>) -> bool {
    forall|i: int, j: int| 0 <= i < j < ks.len() ==> chars_lt(ks[i], ks[j])
}

/// The map that sends each key of `ks` to the value at the same index of `vs`.
pub open spec fn map_of<V>(ks: Seq<Seq<char>>, vs: Seq<V>) -> Map<Seq<char>, V> {
    Map::new(|k: Seq<char>| ks.contains(k), |k: Seq<char>| vs[ks.index_of(k)])
}

pub proof fn lemma_sorted_no_duplicates(ks: Seq<Seq<char>>)
    requires
        keys_sorted(ks),
    ensures
        ks.no_duplicates(),
{
    assert forall|i: int, j: int| 0 <= i < ks.len() && 0 <= j < ks.len() && i != j implies ks[i]
        != ks[j] by {
        if i < j {
            lemma_chars_lt_irreflexive(ks[i]);
        } else {
            lemma_chars_lt_irreflexive(ks[j]);
        }
    }
}

pub proof fn lemma_index_of_unique<A>(s: Seq<A>, i: int)
    requires
        s.no_duplicates(),
        0 <= i < s.len(),
    ensures
        s.index_of(s[i]) == i,
{
    assert(s.contains(s[i]));
}

/// The map of distinct keys sends the key at each index to the value there.
pub proof fn lemma_map_of_at<V>(ks: Seq<Seq<char>>, vs: Seq<V>, i: int)
    requires
        ks.no_duplicates(),
        0 <= i < ks.len(),
    ensures
        map_of(ks, vs).contains_key(ks[i]),
        map_of(ks, vs)[ks[i]] == vs[i],
{
    lemma_index_of_unique(ks, i);
}

/// Inserting a new key (and its value) at the same index of both sequences
/// inserts it into the map.
pub proof fn lemma_map_of_insert<V>(ks: Seq<Seq<char>>, vs: Seq<V>, p: int, k: Seq<char>, v: V)
    requires
        ks.no_duplicates(),
        ks.len() == vs.len(),
        !ks.contains(k),
        0 <= p <= ks.len(),
    ensures
        ks.insert(p, k).no_duplicates(),
        map_of(ks.insert(p, k), vs.insert(p, v)) == map_of(ks, vs).insert(k, v),
{
    let nk = ks.insert(p, k);
    let nv = vs.insert(p, v);
    assert forall|i: int, j: int| 0 <= i < nk.len() && 0 <= j < nk.len() && i != j implies nk[i]
        != nk[j] by {
        if i != p && j != p {
            let oi = if i < p { i } else { i - 1 };
            let oj = if j < p { j } else { j - 1 };
            assert(nk[i] == ks[oi] && nk[j] == ks[oj]);
        } else if i == p {
            let oj = if j < p { j } else { j - 1 };
            assert(nk[j] == ks[oj]);
        } else {
            let oi = if i < p { i } else { i - 1 };
            assert(nk[i] == ks[oi]);
        }
    }
    let a = map_of(nk, nv);
    let b = map_of(ks, vs).insert(k, v);
    assert forall|x: Seq<char>| a.contains_key(x) <==> b.contains_key(x) by {
        if nk.contains(x) {
            let i = choose|i: int| 0 <= i < nk.len() && nk[i] == x;
            if i < p {
                assert(ks[i] == x);
            } else if i > p {
                assert(ks[i - 1] == x);
            }
        }
        if ks.contains(x) {
            let i = choose|i: int| 0 <= i < ks.len() && ks[i] == x;
            if i < p {
                assert(nk[i] == x);
            } else {
                assert(nk[i + 1] == x);
            }
        }
        if x == k {
            assert(nk[p] == x);
        }
    }
    assert forall|x: Seq<char>| #[trigger] a.contains_key(x) implies a[x] == b[x] by {
        let i = choose|i: int| 0 <= i < nk.len() && nk[i] == x;
        lemma_index_of_unique(nk, i);
        if i < p {
            assert(nk[i] == ks[i]);
            lemma_index_of_unique(ks, i);
        } else if i > p {
            assert(nk[i] == ks[i - 1]);
            lemma_index_of_unique(ks, i - 1);
        }
    }
    assert(a =~= b);
}

/// Replacing the value at an index updates the map at the key there.
pub proof fn lemma_map_of_update<V>(ks: Seq<Seq<char>>, vs: Seq<V>, i: int, v: V)
    requires
        ks.no_duplicates(),
        ks.len() == vs.len(),
        0 <= i < ks.len(),
    ensures
        map_of(ks, vs.update(i, v)) == map_of(ks, vs).insert(ks[i], v),
{
    let a = map_of(ks, vs.update(i, v));
    let b = map_of(ks, vs).insert(ks[i], v);
    assert(ks.contains(ks[i]));
    assert forall|x: Seq<char>| #[trigger] a.contains_key(x) implies a[x] == b[x] by {
        let j = choose|j: int| 0 <= j < ks.len() && ks[j] == x;
        lemma_index_of_unique(ks, j);
    }
    assert(a =~= b);
}

/// Removing the entry at an index removes its key from the map.
pub proof fn lemma_map_of_remove<V>(ks: Seq<Seq<char>>, vs: Seq<V>, i: int)
    requires
        ks.no_duplicates(),
        ks.len() == vs.len(),
        0 <= i < ks.len(),
    ensures
        ks.remove(i).no_duplicates(),
        map_of(ks.remove(i), vs.remove(i)) == map_of(ks, vs).remove(ks[i]),
{
    let nk = ks.remove(i);
    let nv = vs.remove(i);
    assert forall|a: int, b: int| 0 <= a < nk.len() && 0 <= b < nk.len() && a != b implies nk[a]
        != nk[b] by {
        let oa = if a < i { a } else { a + 1 };
        let ob = if b < i { b } else { b + 1 };
        assert(nk[a] == ks[oa] && nk[b] == ks[ob]);
    }
    let m1 = map_of(nk, nv);
    let m2 = map_of(ks, vs).remove(ks[i]);
    assert forall|x: Seq<char>| m1.contains_key(x) <==> m2.contains_key(x) by {
        if nk.contains(x) {
            let j = choose|j: int| 0 <= j < nk.len() && nk[j] == x;
            let oj = if j < i { j } else { j + 1 };
            assert(ks[oj] == x);
        }
        if ks.contains(x) && x != ks[i] {
            let j = choose|j: int| 0 <= j < ks.len() && ks[j] == x;
            if j < i {
                assert(nk[j] == x);
            } else {
                assert(nk[j - 1] == x);
            }
        }
    }
    assert forall|x: Seq<char>| #[trigger] m1.contains_key(x) implies m1[x] == m2[x] by {
        let j = choose|j: int| 0 <= j < nk.len() && nk[j] == x;
        lemma_index_of_unique(nk, j);
        let oj = if j < i { j } else { j + 1 };
        assert(nk[j] == ks[oj]);
        lemma_index_of_unique(ks, oj);
    }
    assert(m1 =~= m2);
}

/// The map of distinct keys has as many entries as there are keys.
pub proof fn lemma_map_of_len<V>(ks: Seq<Seq<char>>, vs: Seq<V>)
    requires
        ks.no_duplicates(),
    ensures
        map_of(ks, vs).dom() == ks.to_set(),
        map_of(ks, vs).dom().finite(),
        map_of(ks, vs).dom().len() == ks.len(),
{
    assert(map_of(ks, vs).dom() =~= ks.to_set());
    ks.unique_seq_to_set();
}

/// A map from strings to values, kept as a vector sorted by key.
#[derive(Debug)]
pub struct StrMap<V> {
    pub entries: Vec<(String, V)>,
}

impl<V> StrMap<V> {
    /// The keys, in increasing order.
    pub open spec fn keys(self) -> Seq<Seq<char>> {
        Seq::new(self.entries@.len(), |i: int| self.entries@[i].0@)
    }

    /// The values, in the order of their keys.
    pub open spec fn vals(self) -> Seq<V> {
        Seq::new(self.entries@.len(), |i: int| self.entries@[i].1)
    }

    /// The keys are kept in strictly increasing order.
    pub open spec fn wf(self) -> bool {
        keys_sorted(self.keys())
    }

    /// The map the entries stand for.
    pub open spec fn map(self) -> Map<Seq<char>, V> {
        map_of(self.keys(), self.vals())
    }

    /// An empty map.
    pub fn new() -> (m: Self)
        ensures
            m.wf(),
            m.keys() == Seq::<Seq<char>>::empty(),
            m.vals() == Seq::<V>::empty(),
    {
        let m = StrMap { entries: Vec::new() };
        assert(m.keys() =~= Seq::<Seq<char>>::empty());
        assert(m.vals() =~= Seq::<V>::empty());
        m
    }

    /// Number of entries.
    pub fn len(&self) -> (n: usize)
        ensures
            n == self.keys().len(),
    {
        self.entries.len()
    }

    /// The key at index `i`.
    pub fn key_at(&self, i: usize) -> (k: &String)
        requires
            i < self.keys().len(),
        ensures
            k@ == self.keys()[i as int],
    {
        &self.entries[i].0
    }

    /// The value at index `i`.
    pub fn value_at(&self, i: usize) -> (v: &V)
        requires
            i < self.keys().len(),
        ensures
            *v == self.vals()[i as int],
    {
        &self.entries[i].1
    }

    /// Index of the entry with key `key`.
    pub fn find(&self, key: &str) -> (r: Option<usize>)
        ensures
            match r {
                Some(i) => i < self.keys().len() && self.keys()[i as int] == key@,
                None => !self.keys().contains(key@),
            },
    {
        let mut i: usize = 0;
        while i < self.entries.len()
            invariant
                i <= self.keys().len(),
                forall|j: int| 0 <= j < i ==> self.keys()[j] != key@,
            decreases self.entries.len() - i,
        {
            let o = str_order(self.entries[i].0.as_str(), key);
            if o == StrOrder::Equal {
                return Some(i);
            }
            i += 1;
        }
        None
    }

    /// Index at which `key` would be inserted to keep the keys sorted: the
    /// number of keys before it.
    fn insertion_point(&self, key: &str) -> (p: usize)
        requires
            self.wf(),
            !self.keys().contains(key@),
        ensures
            p <= self.keys().len(),
            forall|j: int| 0 <= j < p ==> chars_lt(#[trigger] self.keys()[j], key@),
            forall|j: int| p <= j < self.keys().len() ==> chars_lt(key@, #[trigger] self.keys()[j]),
    {
        let mut i: usize = 0;
        while i < self.entries.len() && str_order(self.entries[i].0.as_str(), key) == StrOrder::Less
            invariant
                i <= self.keys().len(),
                forall|j: int| 0 <= j < i ==> chars_lt(#[trigger] self.keys()[j], key@),
            decreases self.entries.len() - i,
        {
            i += 1;
        }
        proof {
            if i < self.keys().len() {
                let ki = self.keys()[i as int];
                assert(self.keys()[i as int] == self.entries@[i as int].0@);
                assert(!chars_lt(ki, key@));
                assert(ki != key@);
                lemma_chars_lt_total(ki, key@);
                assert forall|j: int| i <= j < self.keys().len() implies chars_lt(
                    key@,
                    #[trigger] self.keys()[j],
                ) by {
                    if j > i {
                        lemma_chars_lt_transitive(key@, ki, self.keys()[j]);
                    }
                }
            }
        }
        i
    }

    /// Put `v` under `key`, replacing the value there if any.
    pub fn insert(&mut self, key: String, v: V)
        requires
            old(self).wf(),
        ensures
            final(self).wf(),
            final(self).map() == old(self).map().insert(key@, v),
            old(self).keys().contains(key@) ==> final(self).keys() == old(self).keys(),
            !old(self).keys().contains(key@) ==> final(self).keys().len() == old(self).keys().len() + 1,
    {
        proof {
            lemma_sorted_no_duplicates(self.keys());
        }
        match self.find(key.as_str()) {
            Some(i) => {
                self.entries[i].1 = v;
                proof {
                    assert(self.keys() =~= old(self).keys());
                    assert(self.vals() =~= old(self).vals().update(i as int, v));
                    lemma_map_of_update(old(self).keys(), old(self).vals(), i as int, v);
                }
            },
            None => {
                let p = self.insertion_point(key.as_str());
                let ghost k = key@;
                self.entries.insert(p, (key, v));
                proof {
                    let ok = old(self).keys();
                    assert(self.keys() =~= ok.insert(p as int, k));
                    assert(self.vals() =~= old(self).vals().insert(p as int, v));
                    lemma_map_of_insert(ok, old(self).vals(), p as int, k, v);
                    assert forall|i: int, j: int| 0 <= i < j < self.keys().len() implies chars_lt(
                        self.keys()[i],
                        self.keys()[j],
                    ) by {
                        let nk = self.keys();
                        if j < p {
                            assert(nk[i] == ok[i] && nk[j] == ok[j]);
                        } else if j == p {
                            assert(nk[i] == ok[i]);
                        } else if i < p {
                            assert(nk[i] == ok[i] && nk[j] == ok[j - 1]);
                        } else if i == p {
                            assert(nk[j] == ok[j - 1]);
                        } else {
                            assert(nk[i] == ok[i - 1] && nk[j] == ok[j - 1]);
                        }
                    }
                }
            },
        }
    }

    /// Replace the value at index `i`.
    pub fn set_value(&mut self, i: usize, v: V)
        requires
            old(self).wf(),
            i < old(self).keys().len(),
        ensures
            final(self).wf(),
            final(self).keys() == old(self).keys(),
            final(self).vals() == old(self).vals().update(i as int, v),
            final(self).map() == old(self).map().insert(old(self).keys()[i as int], v),
    {
        self.entries[i].1 = v;
        proof {
            assert(self.keys() =~= old(self).keys());
            assert(self.vals() =~= old(self).vals().update(i as int, v));
            lemma_sorted_no_duplicates(old(self).keys());
            lemma_map_of_update(old(self).keys(), old(self).vals(), i as int, v);
        }
    }

    /// Remove the entry at index `i`, returning its value.
    pub fn remove_at(&mut self, i: usize) -> (v: V)
        requires
            old(self).wf(),
            i < old(self).keys().len(),
        ensures
            final(self).wf(),
            v == old(self).vals()[i as int],
            final(self).keys() == old(self).keys().remove(i as int),
            final(self).vals() == old(self).vals().remove(i as int),
            final(self).map() == old(self).map().remove(old(self).keys()[i as int]),
    {
        let e = self.entries.remove(i);
        proof {
            let ok = old(self).keys();
            assert(self.keys() =~= ok.remove(i as int));
            assert(self.vals() =~= old(self).vals().remove(i as int));
            lemma_sorted_no_duplicates(ok);
            lemma_map_of_remove(ok, old(self).vals(), i as int);
            assert forall|a: int, b: int| 0 <= a < b < self.keys().len() implies chars_lt(
                self.keys()[a],
                self.keys()[b],
            ) by {
                let oa = if a < i { a } else { a + 1 };
                let ob = if b < i { b } else { b + 1 };
                assert(self.keys()[a] == ok[oa] && self.keys()[b] == ok[ob]);
            }
        }
        e.1
    }

    /// Facts about the map of a well-formed `StrMap`.
    pub proof fn lemma_map(self)
        requires
            self.wf(),
        ensures
            self.keys().no_duplicates(),
            self.keys().len() == self.vals().len(),
            self.map().dom() == self.keys().to_set(),
            self.map().dom().finite(),
            self.map().dom().len() == self.keys().len(),
            forall|i: int|
                0 <= i < self.keys().len() ==> #[trigger] self.map().contains_key(self.keys()[i])
                    && self.map()[self.keys()[i]] == self.vals()[i],
            forall|k: Seq<char>| #[trigger] self.map().contains_key(k) <==> self.keys().contains(k),
    {
        lemma_sorted_no_duplicates(self.keys());
        lemma_map_of_len(self.keys(), self.vals());
        assert forall|i: int| 0 <= i < self.keys().len() implies #[trigger] self.map().contains_key(
            self.keys()[i],
        ) && self.map()[self.keys()[i]] == self.vals()[i] by {
            lemma_map_of_at(self.keys(), self.vals(), i);
        }
    }
}

impl<V: Clone> Clone for StrMap<V> {
    fn clone(&self) -> (r: Self)
        ensures
            r.keys() == self.keys(),
            r.vals().len() == self.vals().len(),
            forall|i: int| 0 <= i < self.vals().len() ==> cloned(self.vals()[i], #[trigger] r.vals()[i]),
    {
        let mut entries: Vec<(String, V)> = Vec::new();
        let mut i: usize = 0;
        while i < self.entries.len()
            invariant
                i <= self.entries@.len(),
                entries@.len() == i,
                forall|j: int|
                    0 <= j < i ==> (#[trigger] entries@[j]).0@ == self.entries@[j].0@ && cloned(
                        self.entries@[j].1,
                        entries@[j].1,
                    ),
            decreases self.entries.len() - i,
        {
            let k = self.entries[i].0.clone();
            let v = self.entries[i].1.clone();
            entries.push((k, v));
            i += 1;
        }
        let r = StrMap { entries };
        assert(r.keys() =~= self.keys());
        r
    }
}

} // verus!
