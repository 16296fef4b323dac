use vstd::prelude::*;

verus! {

/// What a map holds for `k`, as an `Option`.
pub open spec fn lookup(m: Map<Seq<char>, Seq<char>>, k: Seq<char>) -> Option<Seq<char>> {
    if m.contains_key(k) {
        Some(m[k])
    } else {
        None
    }
}

/// The text behind an optional borrowed string.
pub open spec fn opt_view(r: Option<&String>) -> Option<Seq<char>> {
    match r {
        Some(v) => Some(v@),
        None => None,
    }
}

/// The keys of the first `n` pairs of a list.
pub open spec fn first_keys(entries: Seq<(String, String)>, n: int) -> Set<Seq<char>> {
    Set::new(|k: Seq<char>| exists|i: int| 0 <= i < n && #[trigger] entries[i].0@ == k)
}

/// The key/value pairs attached to one directory: a map from key to value
/// kept as a list of pairs with distinct keys.
pub struct ScopeMap {
    entries: Vec<(String, String)>,
    model: Ghost<Map<Seq<char>, Seq<char>>>,
}

impl View for ScopeMap {
    type V = Map<Seq<char>, Seq<char>>;

    closed spec fn view(&self) -> Map<Seq<char>, Seq<char>> {
        self.model@
    }
}

impl ScopeMap {
    /// The list holds each key once, and holds exactly the pairs of the map.
    pub closed spec fn wf(&self) -> bool {
        &&& forall|i: int, j: int|
            0 <= i < j < self.entries@.len() ==> #[trigger] self.entries@[i].0@
                != #[trigger] self.entries@[j].0@
        &&& forall|i: int|
            0 <= i < self.entries@.len() ==> self.model@.contains_key(
                #[trigger] self.entries@[i].0@,
            ) && self.model@[self.entries@[i].0@] == self.entries@[i].1@
        &&& forall|k: Seq<char>| #[trigger]
            self.model@.contains_key(k) ==> exists|i: int|
                0 <= i < self.entries@.len() && #[trigger] self.entries@[i].0@ == k
    }

    /// An empty map.
    pub fn new() -> (r: ScopeMap)
        ensures
            r.wf(),
            r@ == Map::<Seq<char>, Seq<char>>::empty(),
    {
        ScopeMap { entries: Vec::new(), model: Ghost(Map::empty()) }
    }

    /// The number of keys.
    pub fn len(&self) -> (r: usize)
        requires
            self.wf(),
        ensures
            r == self@.len(),
    {
        proof {
            self.lemma_dom_is_keys();
            self.lemma_len_of_keys(self.entries@.len() as int);
        }
        self.entries.len()
    }

    /// The pairs of the map, each key once.
    pub fn pairs(&self) -> (r: &Vec<(String, String)>)
        requires
            self.wf(),
        ensures
            forall|i: int, j: int| 0 <= i < j < r@.len() ==> #[trigger] r@[i].0@ != #[trigger] r@[j].0@,
            forall|i: int|
                0 <= i < r@.len() ==> self@.contains_key(#[trigger] r@[i].0@) && self@[r@[i].0@]
                    == r@[i].1@,
            forall|k: Seq<char>| #[trigger]
                self@.contains_key(k) ==> exists|i: int| 0 <= i < r@.len() && #[trigger] r@[i].0@ == k,
    {
        &self.entries
    }

    proof fn lemma_dom_is_keys(&self)
        requires
            self.wf(),
        ensures
            self@.dom() == first_keys(self.entries@, self.entries@.len() as int),
    {
        assert(self@.dom() =~= first_keys(self.entries@, self.entries@.len() as int));
    }

    proof fn lemma_len_of_keys(&self, n: int)
        requires
            self.wf(),
            0 <= n <= self.entries@.len(),
        ensures
            first_keys(self.entries@, n).finite(),
            first_keys(self.entries@, n).len() == n,
        decreases n,
    {
        if n == 0 {
            assert(first_keys(self.entries@, 0) =~= Set::empty());
        } else {
            self.lemma_len_of_keys(n - 1);
            let k = self.entries@[n - 1].0@;
            assert(first_keys(self.entries@, n) =~= first_keys(self.entries@, n - 1).insert(k));
            assert(!first_keys(self.entries@, n - 1).contains(k));
        }
    }

    /// The position of `key` in the list, if it is there.
    fn find(&self, key: &String) -> (r: Option<usize>)
        requires
            self.wf(),
        ensures
            match r {
                Some(i) => i < self.entries@.len() && self.entries@[i as int].0@ == key@,
                None => !self@.contains_key(key@),
            },
    {
        let mut i: usize = 0;
        while i < self.entries.len()
            invariant
                self.wf(),
                i <= self.entries@.len(),
                forall|j: int| 0 <= j < i ==> #[trigger] self.entries@[j].0@ != key@,
            decreases self.entries@.len() - i,
        {
            if self.entries[i].0 == *key {
                return Some(i);
            }
            i += 1;
        }
        None
    }

    /// The value stored under `key`, if any.
    pub fn get(&self, key: &str) -> (r: Option<&String>)
        requires
            self.wf(),
        ensures
            opt_view(r) == lookup(self@, key@),
    {
        let k: String = key.to_owned();
        match self.find(&k) {
            Some(i) => Some(&self.entries[i].1),
            None => None,
        }
    }

    /// Stores `value` under `key`, replacing what was there.
    pub fn insert(&mut self, key: String, value: String)
        requires
            old(self).wf(),
        ensures
            final(self).wf(),
            final(self)@ == old(self)@.insert(key@, value@),
    {
        let ghost k = key@;
        let ghost v = value@;
        let ghost old_entries = self.entries@;
        let ghost old_model = self.model@;
        match self.find(&key) {
            Some(i) => {
                self.entries[i] = (key, value);
                self.model = Ghost(old_model.insert(k, v));
                proof {
                    assert forall|q: Seq<char>| #[trigger]
                        self.model@.contains_key(q) implies exists|j: int|
                        0 <= j < self.entries@.len() && #[trigger] self.entries@[j].0@ == q by {
                        if q == k {
                            assert(self.entries@[i as int].0@ == q);
                        } else {
                            let j = choose|j: int|
                                0 <= j < old_entries.len() && #[trigger] old_entries[j].0@ == q;
                            assert(self.entries@[j].0@ == q);
                        }
                    }
                }
            },
            None => {
                self.entries.push((key, value));
                self.model = Ghost(old_model.insert(k, v));
                proof {
                    let n = old_entries.len() as int;
                    assert forall|a: int, b: int|
                        0 <= a < b < self.entries@.len() implies #[trigger] self.entries@[a].0@
                        != #[trigger] self.entries@[b].0@ by {
                        if b == n {
                            assert(old_model.contains_key(old_entries[a].0@));
                        }
                    }
                    assert forall|q: Seq<char>| #[trigger]
                        self.model@.contains_key(q) implies exists|j: int|
                        0 <= j < self.entries@.len() && #[trigger] self.entries@[j].0@ == q by {
                        if q == k {
                            assert(self.entries@[n].0@ == q);
                        } else {
                            let j = choose|j: int|
                                0 <= j < old_entries.len() && #[trigger] old_entries[j].0@ == q;
                            assert(self.entries@[j].0@ == q);
                        }
                    }
                }
            },
        }
    }

    /// Takes `key` out of the map; nothing happens where it is absent.
    pub fn remove(&mut self, key: &str)
        requires
            old(self).wf(),
        ensures
            final(self).wf(),
            final(self)@ == old(self)@.remove(key@),
    {
        let k: String = key.to_owned();
        let ghost old_entries = self.entries@;
        let ghost old_model = self.model@;
        match self.find(&k) {
            Some(i) => {
                self.entries.remove(i);
                self.model = Ghost(old_model.remove(k@));
                proof {
                    assert forall|a: int, b: int|
                        0 <= a < b < self.entries@.len() implies #[trigger] self.entries@[a].0@
                        != #[trigger] self.entries@[b].0@ by {
                        let a0 = if a < i { a } else { a + 1 };
                        let b0 = if b < i { b } else { b + 1 };
                        assert(old_entries[a0].0@ != old_entries[b0].0@);
                    }
                    assert forall|j: int| 0 <= j < self.entries@.len() implies self.model@.contains_key(
                        #[trigger] self.entries@[j].0@,
                    ) && self.model@[self.entries@[j].0@] == self.entries@[j].1@ by {
                        let j0 = if j < i { j } else { j + 1 };
                        assert(old_entries[j0] == self.entries@[j]);
                        assert(old_entries[j0].0@ != old_entries[i as int].0@);
                    }
                    assert forall|q: Seq<char>| #[trigger]
                        self.model@.contains_key(q) implies exists|j: int|
                        0 <= j < self.entries@.len() && #[trigger] self.entries@[j].0@ == q by {
                        let j0 = choose|j: int|
                            0 <= j < old_entries.len() && #[trigger] old_entries[j].0@ == q;
                        if j0 < i {
                            assert(self.entries@[j0].0@ == q);
                        } else {
                            assert(j0 != i);
                            assert(self.entries@[j0 - 1].0@ == q);
                        }
                    }
                }
            },
            None => {
                assert(old_model.remove(k@) =~= old_model);
            },
        }
    }

    /// Writes every pair of `other` into this map, the values of `other`
    /// winning over those already here.
    pub fn extend_from(&mut self, other: &ScopeMap)
        requires
            old(self).wf(),
            other.wf(),
        ensures
            final(self).wf(),
            final(self)@ == old(self)@.union_prefer_right(other@),
    {
        let ghost start = self@;
        let mut j: usize = 0;
        assert(other@.restrict(first_keys(other.entries@, 0)) =~= Map::empty());
        assert(start.union_prefer_right(Map::empty()) =~= start);
        while j < other.entries.len()
            invariant
                self.wf(),
                other.wf(),
                j <= other.entries@.len(),
                self@ == start.union_prefer_right(
                    other@.restrict(first_keys(other.entries@, j as int)),
                ),
            decreases other.entries@.len() - j,
        {
            let k = other.entries[j].0.clone();
            let v = other.entries[j].1.clone();
            let ghost before = self@;
            self.insert(k, v);
            proof {
                let ek = other.entries@[j as int].0@;
                assert(first_keys(other.entries@, j + 1) =~= first_keys(
                    other.entries@,
                    j as int,
                ).insert(ek));
                assert(start.union_prefer_right(
                    other@.restrict(first_keys(other.entries@, j + 1)),
                ) =~= before.insert(ek, other@[ek]));
            }
            j += 1;
        }
        proof {
            self.lemma_keep(other);
        }
    }

    proof fn lemma_keep(&self, other: &ScopeMap)
        requires
            other.wf(),
        ensures
            other@.restrict(first_keys(other.entries@, other.entries@.len() as int)) == other@,
    {
        other.lemma_dom_is_keys();
        assert(other@.restrict(first_keys(other.entries@, other.entries@.len() as int)) =~= other@);
    }
}

} // verus!
