use vstd::prelude::*;

verus! {

/// A small map from string keys to string values, kept as a list of
/// entries with pairwise distinct keys. Keys are compared by their
/// characters; a later `insert` of an existing key replaces its value.
pub struct StringMap {
    entries: Vec<(String, String)>,
}

/// Whether the key `k` occurs in `entries`.
pub open spec fn has_key(entries: Seq<(String, String)>, k: Seq<char>) -> bool {
    exists|i: int| 0 <= i < entries.len() && (#[trigger] entries[i]).0@ == k
}

/// No key occurs twice in `entries`.
pub open spec fn distinct_keys(entries: Seq<(String, String)>) -> bool {
    forall|i: int, j: int|
        0 <= i < entries.len() && 0 <= j < entries.len() && i != j ==> (#[trigger] entries[i]).0@
            != (#[trigger] entries[j]).0@
}

impl StringMap {
    #[verifier::type_invariant]
    spec fn keys_distinct(self) -> bool {
        distinct_keys(self.entries@)
    }

    /// The value stored under key `k`, as a function of the entries.
    spec fn value_of(self, k: Seq<char>) -> String {
        self.entries@[choose|i: int| 0 <= i < self.entries@.len() && self.entries@[i].0@ == k].1
    }

    proof fn lemma_view(self, k: Seq<char>)
        ensures
            self@.contains_key(k) == has_key(self.entries@, k),
            self@.contains_key(k) ==> self@[k] == self.value_of(k),
    {
    }

    /// Creates an empty map.
    pub fn new() -> (m: Self)
        ensures
            m@ == Map::<Seq<char>, String>::empty(),
    {
        let m = StringMap { entries: Vec::new() };
        assert(m@ =~= Map::<Seq<char>, String>::empty());
        m
    }

    /// Number of keys in the map.
    pub fn len(&self) -> (n: usize)
        ensures
            n == self@.len(),
    {
        proof {
            use_type_invariant(self);
            self.lemma_len();
        }
        self.entries.len()
    }

    proof fn lemma_len(self)
        requires
            distinct_keys(self.entries@),
        ensures
            self@.dom().finite(),
            self@.len() == self.entries@.len(),
        decreases self.entries@.len(),
    {
        let e = self.entries@;
        let keys = e.map_values(|p: (String, String)| p.0@);
        assert(self@.dom() =~= keys.to_set()) by {
            assert forall|k: Seq<char>| self@.dom().contains(k) implies keys.to_set().contains(k) by {
                let i = choose|i: int| 0 <= i < e.len() && (#[trigger] e[i]).0@ == k;
                assert(keys[i] == k);
            }
            assert forall|k: Seq<char>| keys.to_set().contains(k) implies self@.dom().contains(k) by {
                let i = choose|i: int| 0 <= i < keys.len() && keys[i] == k;
                assert(e[i].0@ == k);
            }
        }
        assert(keys.no_duplicates()) by {
            assert forall|i: int, j: int| 0 <= i < keys.len() && 0 <= j < keys.len() && i != j
                implies keys[i] != keys[j] by {
                assert(e[i].0@ != e[j].0@);
            }
        }
        keys.unique_seq_to_set();
    }

    /// Looks a key up by its characters.
    pub fn get(&self, key: &str) -> (v: Option<&String>)
        ensures
            match v {
                Some(s) => self@.contains_key(key@) && *s == self@[key@],
                None => !self@.contains_key(key@),
            },
    {
        proof {
            use_type_invariant(self);
        }
        let mut i: usize = 0;
        while i < self.entries.len()
            invariant
                0 <= i <= self.entries@.len(),
                distinct_keys(self.entries@),
                forall|j: int| 0 <= j < i ==> (#[trigger] self.entries@[j]).0@ != key@,
            decreases self.entries@.len() - i,
        {
            if str_eq(self.entries[i].0.as_str(), key) {
                let ghost k = key@;
                proof {
                    let c = choose|j: int|
                        0 <= j < self.entries@.len() && self.entries@[j].0@ == k;
                    assert(c == i as int);
                }
                return Some(&self.entries[i].1);
            }
            i = i + 1;
        }
        None
    }

    /// The entries of the map, each key once.
    pub fn into_pairs(self) -> (r: Vec<(String, String)>)
        ensures
            distinct_keys(r@),
            r@.len() == self@.len(),
            forall|i: int|
                0 <= i < r@.len() ==> self@.contains_key((#[trigger] r@[i]).0@) && self@[r@[i].0@]
                    == r@[i].1,
            forall|k: Seq<char>| #[trigger] self@.contains_key(k) ==> has_key(r@, k),
    {
        proof {
            use_type_invariant(&self);
            self.lemma_len();
            assert forall|i: int| 0 <= i < self.entries@.len() implies self@.contains_key(
                (#[trigger] self.entries@[i]).0@,
            ) && self@[self.entries@[i].0@] == self.entries@[i].1 by {
                let k = self.entries@[i].0@;
                self.lemma_view(k);
                let c = choose|j: int| 0 <= j < self.entries@.len() && self.entries@[j].0@ == k;
                assert(c == i);
            }
            assert forall|k: Seq<char>| #[trigger] self@.contains_key(k) implies has_key(
                self.entries@,
                k,
            ) by {
                self.lemma_view(k);
            }
        }
        self.entries
    }

    /// Stores `value` under `key`, replacing any value the key had.
    pub fn insert(&mut self, key: String, value: String)
        ensures
            final(self)@ == old(self)@.insert(key@, value),
    {
        proof {
            use_type_invariant(&*self);
        }
        let ghost old_e = self.entries@;
        let mut i: usize = 0;
        while i < self.entries.len()
            invariant
                0 <= i <= self.entries@.len(),
                self.entries@ == old_e,
                old(self).entries@ == old_e,
                distinct_keys(old_e),
                forall|j: int| 0 <= j < i ==> (#[trigger] old_e[j]).0@ != key@,
            decreases self.entries@.len() - i,
        {
            if str_eq(self.entries[i].0.as_str(), key.as_str()) {
                let mut entries = Vec::new();
                std::mem::swap(&mut entries, &mut self.entries);
                let ghost k = key@;
                assert(old_e[i as int].0@ == k);
                entries.set(i, (key, value));
                let ghost new_e = entries@;
                assert(distinct_keys(new_e)) by {
                    assert forall|a: int, b: int|
                        0 <= a < new_e.len() && 0 <= b < new_e.len() && a != b
                        implies (#[trigger] new_e[a]).0@ != (#[trigger] new_e[b]).0@ by {
                        if a == i as int {
                            assert(old_e[b].0@ != old_e[a].0@);
                        } else if b == i as int {
                            assert(old_e[a].0@ != old_e[b].0@);
                        } else {
                            assert(old_e[a].0@ != old_e[b].0@);
                        }
                    }
                }
                self.entries = entries;
                proof {
                    assert forall|q: Seq<char>| true implies
                        #[trigger] self@.contains_key(q) == old(self)@.insert(k, value).contains_key(q)
                        by {
                        if q == k {
                            assert(new_e[i as int].0@ == q);
                        } else if old(self)@.contains_key(q) {
                            old(self).lemma_view(q);
                            let j = choose|j: int| 0 <= j < old_e.len() && old_e[j].0@ == q;
                            assert(j != i as int);
                            assert(new_e[j].0@ == q);
                        } else if self@.contains_key(q) {
                            self.lemma_view(q);
                            let j = choose|j: int| 0 <= j < new_e.len() && new_e[j].0@ == q;
                            assert(j != i as int);
                            assert(old_e[j].0@ == q);
                        }
                    }
                    assert forall|q: Seq<char>| #[trigger] self@.contains_key(q) implies
                        self@[q] == old(self)@.insert(k, value)[q] by {
                        let j = choose|j: int| 0 <= j < new_e.len() && new_e[j].0@ == q;
                        if q == k {
                            assert(new_e[i as int].0@ == q);
                            assert(j == i as int);
                        } else {
                            assert(old_e[j].0@ == q);
                            let j2 = choose|j2: int| 0 <= j2 < old_e.len() && old_e[j2].0@ == q;
                            assert(j2 == j);
                        }
                    }
                    assert(self@ =~= old(self)@.insert(k, value));
                }
                return;
            }
            i = i + 1;
        }
        let ghost k = key@;
        let mut entries = Vec::new();
        std::mem::swap(&mut entries, &mut self.entries);
        entries.push((key, value));
        let ghost new_e = entries@;
        assert(distinct_keys(new_e));
        self.entries = entries;
        proof {
            assert forall|q: Seq<char>| true implies
                #[trigger] self@.contains_key(q) == old(self)@.insert(k, value).contains_key(q) by {
                if q == k {
                    assert(new_e[old_e.len() as int].0@ == q);
                } else if old(self)@.contains_key(q) {
                    let j = choose|j: int| 0 <= j < old_e.len() && old_e[j].0@ == q;
                    assert(new_e[j].0@ == q);
                } else if self@.contains_key(q) {
                    let j = choose|j: int| 0 <= j < new_e.len() && new_e[j].0@ == q;
                    assert(old_e[j].0@ == q);
                }
            }
            assert forall|q: Seq<char>| #[trigger] self@.contains_key(q) implies
                self@[q] == old(self)@.insert(k, value)[q] by {
                let j = choose|j: int| 0 <= j < new_e.len() && new_e[j].0@ == q;
                if q == k {
                    assert(j == old_e.len() as int);
                } else {
                    assert(old_e[j].0@ == q);
                    let j2 = choose|j2: int| 0 <= j2 < old_e.len() && old_e[j2].0@ == q;
                    assert(j2 == j);
                }
            }
            assert(self@ =~= old(self)@.insert(k, value));
        }
    }
}

impl View for StringMap {
    type V = Map<Seq<char>, String>;

    closed spec fn view(&self) -> Map<Seq<char>, String> {
        Map::new(|k: Seq<char>| has_key(self.entries@, k), |k: Seq<char>| self.value_of(k))
    }
}

/// Character-wise equality of two string slices.
pub fn str_eq(a: &str, b: &str) -> (r: bool)
    ensures
        r == (a@ == b@),
{
    let n = a.unicode_len();
    if n != b.unicode_len() {
        return false;
    }
    let mut i: usize = 0;
    while i < n
        invariant
            n == a@.len(),
            n == b@.len(),
            0 <= i <= n,
            forall|j: int| 0 <= j < i ==> a@[j] == b@[j],
        decreases n - i,
    {
        if a.get_char(i) != b.get_char(i) {
            return false;
        }
        i = i + 1;
    }
    assert(a@ =~= b@);
    true
}

} // verus!
