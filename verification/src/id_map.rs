//! A map from text identifiers to values that keeps its entries in the order
//! in which they were first inserted.
use vstd::prelude::*;

verus! {

/// A map keyed by text. Each key occurs once; a new key goes to the end, and
/// an insert under a present key replaces its value in place.
#[derive(Debug)]
pub struct IdMap<V> {
    entries: Vec<(String, V)>,
}

impl<V> IdMap<V> {
    /// The keys, in entry order.
    pub closed spec fn key_seq(&self) -> Seq<Seq<char>> {
        self.entries@.map_values(|e: (String, V)| e.0@)
    }

    /// The values, in entry order.
    pub closed spec fn value_seq(&self) -> Seq<V> {
        self.entries@.map_values(|e: (String, V)| e.1)
    }

    #[verifier::type_invariant]
    closed spec fn keys_distinct(&self) -> bool {
        self.key_seq().no_duplicates()
    }
}

impl<V: View> IdMap<V> {
    /// What a well-formed map's order and its view have to do with each other.
    pub open spec fn ordered_as(self, m: Map<Seq<char>, V::V>) -> bool {
        &&& self.key_seq().len() == self.value_seq().len()
        &&& self.key_seq().no_duplicates()
        &&& forall|k: Seq<char>| #[trigger] m.contains_key(k) <==> self.key_seq().contains(k)
        &&& forall|i: int|
            0 <= i < self.key_seq().len() ==> m[#[trigger] self.key_seq()[i]]
                == self.value_seq()[i]@
        &&& m.dom().finite()
        &&& m.len() == self.key_seq().len()
    }

    proof fn lemma_ordered(&self)
        requires
            self.keys_distinct(),
        ensures
            self.ordered_as(self@),
    {
        let ks = self.key_seq();
        assert forall|i: int| 0 <= i < ks.len() implies self@[#[trigger] ks[i]]
            == self.value_seq()[i]@ by {
            assert(ks.contains(ks[i]));
            let j = ks.index_of(ks[i]);
            assert(ks[j] == ks[i]);
        }
        assert(self@.dom() =~= ks.to_set());
        ks.unique_seq_to_set();
    }

    /// Two maps with the same keys in the same order and values of equal views
    /// have equal views.
    pub proof fn lemma_same_view(a: &Self, b: &Self)
        requires
            a.key_seq() == b.key_seq(),
            a.value_seq().len() == b.value_seq().len(),
            forall|i: int| 0 <= i < a.value_seq().len() ==> (#[trigger] a.value_seq()[i])@
                == b.value_seq()[i]@,
        ensures
            a@ == b@,
    {
        assert(a@ =~= b@);
    }

    /// An empty map.
    pub fn new() -> (m: Self)
        ensures
            m@ == Map::<Seq<char>, V::V>::empty(),
            m.key_seq().len() == 0,
    {
        let m = IdMap { entries: Vec::new() };
        assert(m@ =~= Map::<Seq<char>, V::V>::empty());
        m
    }

    /// The number of entries.
    pub fn len(&self) -> (r: usize)
        ensures
            r == self.key_seq().len(),
            self.ordered_as(self@),
    {
        proof {
            use_type_invariant(self);
            self.lemma_ordered();
        }
        self.entries.len()
    }

    /// The key of the entry at position `i`.
    pub fn key_at(&self, i: usize) -> (r: &String)
        requires
            i < self.key_seq().len(),
        ensures
            r@ == self.key_seq()[i as int],
    {
        &self.entries[i].0
    }

    /// The value of the entry at position `i`.
    pub fn value_at(&self, i: usize) -> (r: &V)
        requires
            i < self.key_seq().len(),
        ensures
            *r == self.value_seq()[i as int],
    {
        &self.entries[i].1
    }

    fn position(&self, k: &String) -> (r: Option<usize>)
        ensures
            match r {
                Some(i) => i < self.key_seq().len() && self.key_seq()[i as int] == k@,
                None => !self.key_seq().contains(k@),
            },
    {
        let n = self.entries.len();
        let mut i: usize = 0;
        while i < n
            invariant
                n == self.key_seq().len(),
                i <= n,
                forall|j: int| 0 <= j < i ==> self.key_seq()[j] != k@,
            decreases n - i,
        {
            if self.entries[i].0 == *k {
                return Some(i);
            }
            i = i + 1;
        }
        None
    }

    /// Whether `k` is a key.
    pub fn contains_key(&self, k: &String) -> (r: bool)
        ensures
            r == self@.contains_key(k@),
    {
        self.position(k).is_some()
    }

    /// The value under `k`.
    pub fn get(&self, k: &String) -> (r: Option<&V>)
        ensures
            match r {
                Some(v) => self@.contains_key(k@) && v@ == self@[k@],
                None => !self@.contains_key(k@),
            },
    {
        proof {
            use_type_invariant(self);
            self.lemma_ordered();
        }
        match self.position(k) {
            Some(i) => Some(&self.entries[i].1),
            None => None,
        }
    }

    /// Puts `v` under `k`, in place of what was there.
    pub fn insert(&mut self, k: String, v: V)
        ensures
            final(self)@ == old(self)@.insert(k@, v@),
            old(self)@.contains_key(k@) ==> final(self).key_seq() == old(self).key_seq(),
            !old(self)@.contains_key(k@) ==> final(self).key_seq() == old(self).key_seq().push(
                k@,
            ),
    {
        proof {
            use_type_invariant(&*self);
            self.lemma_ordered();
        }
        let ghost old_keys = self.key_seq();
        let ghost old_values = self.value_seq();
        let ghost old_map = self@;
        let ghost kv = k@;
        let ghost vv = v@;
        let mut entries: Vec<(String, V)> = Vec::new();
        std::mem::swap(&mut entries, &mut self.entries);
        match self_position(&entries, &k) {
            Some(i) => {
                entries.set(i, (k, v));
                assert(entries@.map_values(|e: (String, V)| e.0@) =~= old_keys);
                self.entries = entries;
                assert(self.value_seq() =~= old_values.update(i as int, v));
                proof {
                    self.lemma_ordered();
                    let ks = self.key_seq();
                    assert forall|x: Seq<char>| #[trigger] self@.contains_key(x) implies self@[x]
                        == old_map.insert(kv, vv)[x] by {
                        let j = choose|j: int| 0 <= j < ks.len() && ks[j] == x;
                        assert(self@[ks[j]] == self.value_seq()[j]@);
                        assert(ks[j] == old_keys[j]);
                        if j != i {
                            assert(old_map[old_keys[j]] == old_values[j]@);
                            assert(old_keys[i as int] == kv);
                            assert(old_keys.no_duplicates());
                            assert(x != kv);
                        } else {
                            assert(x == kv);
                            assert(self.value_seq()[j] == v);
                        }
                    }
                    assert forall|x: Seq<char>| #[trigger] old_map.insert(kv, vv).contains_key(x)
                        implies self@.contains_key(x) by {
                        if x != kv {
                            let j = choose|j: int| 0 <= j < old_keys.len() && old_keys[j] == x;
                            assert(ks[j] == x);
                        } else {
                            assert(ks[i as int] == x);
                        }
                    }
                    assert(self@ =~= old_map.insert(kv, vv));
                }
            },
            None => {
                entries.push((k, v));
                assert(entries@.map_values(|e: (String, V)| e.0@) =~= old_keys.push(kv));
                self.entries = entries;
                assert(self.value_seq() =~= old_values.push(v));
                proof {
                    self.lemma_ordered();
                    let ks = self.key_seq();
                    assert forall|x: Seq<char>| #[trigger] self@.contains_key(x) implies self@[x]
                        == old_map.insert(kv, vv)[x] by {
                        let j = choose|j: int| 0 <= j < ks.len() && ks[j] == x;
                        assert(self@[ks[j]] == self.value_seq()[j]@);
                        if j < old_keys.len() {
                            assert(old_map[old_keys[j]] == old_values[j]@);
                            assert(ks[j] == old_keys[j]);
                            assert(x != kv);
                        } else {
                            assert(self.value_seq()[j] == v);
                        }
                    }
                    assert forall|x: Seq<char>| #[trigger] old_map.insert(kv, vv).contains_key(x)
                        implies self@.contains_key(x) by {
                        if x != kv {
                            let j = choose|j: int| 0 <= j < old_keys.len() && old_keys[j] == x;
                            assert(ks[j] == x);
                        } else {
                            assert(ks[old_keys.len() as int] == x);
                        }
                    }
                    assert(self@ =~= old_map.insert(kv, vv));
                }
            },
        }
    }

    /// Takes `k` and its value out of the map; the other entries keep their order.
    pub fn remove(&mut self, k: &String) -> (r: Option<V>)
        ensures
            final(self)@ == old(self)@.remove(k@),
            match r {
                Some(v) => old(self)@.contains_key(k@) && v@ == old(self)@[k@],
                None => !old(self)@.contains_key(k@),
            },
    {
        proof {
            use_type_invariant(&*self);
            self.lemma_ordered();
        }
        let ghost old_keys = self.key_seq();
        let ghost old_values = self.value_seq();
        let ghost old_map = self@;
        match self.position(k) {
            Some(i) => {
                let mut entries: Vec<(String, V)> = Vec::new();
                std::mem::swap(&mut entries, &mut self.entries);
                let (_, v) = entries.remove(i);
                assert(entries@.map_values(|e: (String, V)| e.0@) =~= old_keys.remove(i as int));
                self.entries = entries;
                assert(self.value_seq() =~= old_values.remove(i as int));
                proof {
                    self.lemma_ordered();
                    let ks = self.key_seq();
                    assert forall|x: Seq<char>| #[trigger] self@.contains_key(x) implies self@[x]
                        == old_map.remove(k@)[x] by {
                        let j = choose|j: int| 0 <= j < ks.len() && ks[j] == x;
                        assert(self@[ks[j]] == self.value_seq()[j]@);
                        if j < i {
                            assert(old_map[old_keys[j]] == old_values[j]@);
                        } else {
                            assert(old_map[old_keys[j + 1]] == old_values[j + 1]@);
                        }
                    }
                    assert forall|x: Seq<char>| #[trigger] old_map.remove(k@).contains_key(x)
                        implies self@.contains_key(x) by {
                        let j = choose|j: int| 0 <= j < old_keys.len() && old_keys[j] == x;
                        if j < i {
                            assert(ks[j] == x);
                        } else {
                            assert(ks[j - 1] == x);
                        }
                    }
                    assert(self@ =~= old_map.remove(k@));
                    assert(old_map[old_keys[i as int]] == old_values[i as int]@);
                }
                Some(v)
            },
            None => {
                assert(old(self)@.remove(k@) =~= old(self)@);
                None
            },
        }
    }
}

fn self_position<V>(entries: &Vec<(String, V)>, k: &String) -> (r: Option<usize>)
    ensures
        match r {
            Some(i) => i < entries@.len() && entries@[i as int].0@ == k@,
            None => forall|j: int| 0 <= j < entries@.len() ==> (#[trigger] entries@[j]).0@ != k@,
        },
{
    let n = entries.len();
    let mut i: usize = 0;
    while i < n
        invariant
            n == entries@.len(),
            i <= n,
            forall|j: int| 0 <= j < i ==> (#[trigger] entries@[j]).0@ != k@,
        decreases n - i,
    {
        if entries[i].0 == *k {
            return Some(i);
        }
        i = i + 1;
    }
    None
}

impl<V: View> View for IdMap<V> {
    type V = Map<Seq<char>, V::V>;

    closed spec fn view(&self) -> Map<Seq<char>, V::V> {
        Map::new(
            |k: Seq<char>| self.key_seq().contains(k),
            |k: Seq<char>| self.value_seq()[self.key_seq().index_of(k)]@,
        )
    }
}

impl<V: View + Clone> Clone for IdMap<V> {
    fn clone(&self) -> (r: Self)
        ensures
            r.key_seq() == self.key_seq(),
            r.value_seq().len() == self.value_seq().len(),
            forall|i: int|
                0 <= i < self.value_seq().len() ==> cloned::<V>(
                    self.value_seq()[i],
                    #[trigger] r.value_seq()[i],
                ),
    {
        proof {
            use_type_invariant(self);
        }
        let n = self.entries.len();
        let mut entries: Vec<(String, V)> = Vec::new();
        let mut i: usize = 0;
        while i < n
            invariant
                n == self.entries@.len(),
                i <= n,
                entries@.len() == i,
                forall|j: int| 0 <= j < i ==> (#[trigger] entries@[j]).0@ == self.entries@[j].0@,
                forall|j: int|
                    0 <= j < i ==> cloned::<V>(self.entries@[j].1, #[trigger] entries@[j].1),
            decreases n - i,
        {
            let key = self.entries[i].0.clone();
            let value = self.entries[i].1.clone();
            entries.push((key, value));
            i = i + 1;
        }
        assert(entries@.map_values(|e: (String, V)| e.0@) =~= self.key_seq());
        let r = IdMap { entries };
        r
    }
}

} // verus!
