use vstd::prelude::*;

use crate::scope::ScopeMap;

verus! {

/// What the store holds: each directory with its key/value map.
pub type StoreModel = Map<Seq<char>, Map<Seq<char>, Seq<char>>>;

/// The map of directory `p`; a directory without an entry has an empty map.
pub open spec fn scope_of(store: StoreModel, p: Seq<char>) -> Map<Seq<char>, Seq<char>> {
    if store.contains_key(p) {
        store[p]
    } else {
        Map::empty()
    }
}

/// The store after writing `k = v` into the map of directory `p` alone.
pub open spec fn store_set(store: StoreModel, p: Seq<char>, k: Seq<char>, v: Seq<char>) -> StoreModel {
    store.insert(p, scope_of(store, p).insert(k, v))
}

/// The store after taking `k` out of the map of directory `p` alone; a
/// directory without an entry stays without one.
pub open spec fn store_remove(store: StoreModel, p: Seq<char>, k: Seq<char>) -> StoreModel {
    if store.contains_key(p) {
        store.insert(p, store[p].remove(k))
    } else {
        store
    }
}

/// The maps of all directories, keyed by path text. Paths are compared as
/// they are written: no two spellings of one directory are merged.
pub struct ScopeStore {
    paths: Vec<String>,
    scopes: Vec<ScopeMap>,
    model: Ghost<StoreModel>,
}

impl View for ScopeStore {
    type V = StoreModel;

    closed spec fn view(&self) -> StoreModel {
        self.model@
    }
}

impl ScopeStore {
    /// Each path is listed once, beside its well-formed map, and the lists
    /// hold exactly the entries of the store.
    pub closed spec fn wf(&self) -> bool {
        &&& self.paths@.len() == self.scopes@.len()
        &&& forall|i: int, j: int|
            0 <= i < j < self.paths@.len() ==> #[trigger] self.paths@[i]@ != #[trigger] self.paths@[j]@
        &&& forall|i: int|
            0 <= i < self.paths@.len() ==> self.model@.contains_key(#[trigger] self.paths@[i]@)
                && self.scopes@[i].wf() && self.model@[self.paths@[i]@] == self.scopes@[i]@
        &&& forall|p: Seq<char>| #[trigger]
            self.model@.contains_key(p) ==> exists|i: int|
                0 <= i < self.paths@.len() && #[trigger] self.paths@[i]@ == p
    }

    /// An empty store.
    pub fn new() -> (r: ScopeStore)
        ensures
            r.wf(),
            r@ == StoreModel::empty(),
    {
        ScopeStore { paths: Vec::new(), scopes: Vec::new(), model: Ghost(Map::empty()) }
    }

    /// The directories that have an entry, each once.
    pub fn paths(&self) -> (r: &Vec<String>)
        requires
            self.wf(),
        ensures
            forall|i: int, j: int| 0 <= i < j < r@.len() ==> #[trigger] r@[i]@ != #[trigger] r@[j]@,
            forall|i: int| 0 <= i < r@.len() ==> self@.contains_key(#[trigger] r@[i]@),
            forall|p: Seq<char>| #[trigger]
                self@.contains_key(p) ==> exists|i: int| 0 <= i < r@.len() && #[trigger] r@[i]@ == p,
    {
        &self.paths
    }

    /// The position of `path` in the list, if it is there.
    fn find(&self, path: &String) -> (r: Option<usize>)
        requires
            self.wf(),
        ensures
            match r {
                Some(i) => i < self.paths@.len() && self.paths@[i as int]@ == path@,
                None => !self@.contains_key(path@),
            },
    {
        let mut i: usize = 0;
        while i < self.paths.len()
            invariant
                self.wf(),
                i <= self.paths@.len(),
                forall|j: int| 0 <= j < i ==> #[trigger] self.paths@[j]@ != path@,
            decreases self.paths@.len() - i,
        {
            if self.paths[i] == *path {
                return Some(i);
            }
            i += 1;
        }
        None
    }

    /// The map of `path`, or `None` where the directory has no entry.
    pub fn scope(&self, path: &str) -> (r: Option<&ScopeMap>)
        requires
            self.wf(),
        ensures
            match r {
                Some(m) => self@.contains_key(path@) && m.wf() && m@ == self@[path@],
                None => !self@.contains_key(path@),
            },
    {
        let p: String = path.to_owned();
        match self.find(&p) {
            Some(i) => Some(&self.scopes[i]),
            None => None,
        }
    }

    /// Writes `key = value` into the map of `path`, giving the directory an
    /// entry first where it has none.
    pub fn set(&mut self, path: String, key: String, value: String)
        requires
            old(self).wf(),
        ensures
            final(self).wf(),
            final(self)@ == store_set(old(self)@, path@, key@, value@),
    {
        let ghost p = path@;
        let ghost k = key@;
        let ghost v = value@;
        let ghost old_paths = self.paths@;
        let ghost old_model = self.model@;
        match self.find(&path) {
            Some(i) => {
                self.scopes[i].insert(key, value);
                self.model = Ghost(store_set(old_model, p, k, v));
                proof {
                    assert forall|q: Seq<char>| #[trigger]
                        self.model@.contains_key(q) implies exists|j: int|
                        0 <= j < self.paths@.len() && #[trigger] self.paths@[j]@ == q by {
                        if q == p {
                            assert(self.paths@[i as int]@ == q);
                        } else {
                            let j = choose|j: int|
                                0 <= j < old_paths.len() && #[trigger] old_paths[j]@ == q;
                            assert(self.paths@[j]@ == q);
                        }
                    }
                }
            },
            None => {
                let mut m = ScopeMap::new();
                m.insert(key, value);
                self.paths.push(path);
                self.scopes.push(m);
                self.model = Ghost(store_set(old_model, p, k, v));
                proof {
                    let n = old_paths.len() as int;
                    assert forall|a: int, b: int|
                        0 <= a < b < self.paths@.len() implies #[trigger] self.paths@[a]@
                        != #[trigger] self.paths@[b]@ by {
                        if b == n {
                            assert(old_model.contains_key(old_paths[a]@));
                        }
                    }
                    assert forall|q: Seq<char>| #[trigger]
                        self.model@.contains_key(q) implies exists|j: int|
                        0 <= j < self.paths@.len() && #[trigger] self.paths@[j]@ == q by {
                        if q == p {
                            assert(self.paths@[n]@ == q);
                        } else {
                            let j = choose|j: int|
                                0 <= j < old_paths.len() && #[trigger] old_paths[j]@ == q;
                            assert(self.paths@[j]@ == q);
                        }
                    }
                }
            },
        }
    }

    /// Takes `key` out of the map of `path`; nothing happens where the
    /// directory has no entry or its map lacks the key.
    pub fn remove(&mut self, path: &str, key: &str)
        requires
            old(self).wf(),
        ensures
            final(self).wf(),
            final(self)@ == store_remove(old(self)@, path@, key@),
    {
        let p: String = path.to_owned();
        let ghost old_paths = self.paths@;
        let ghost old_model = self.model@;
        match self.find(&p) {
            Some(i) => {
                self.scopes[i].remove(key);
                self.model = Ghost(store_remove(old_model, p@, key@));
                proof {
                    assert forall|j: int| 0 <= j < self.paths@.len() implies self.model@.contains_key(
                        #[trigger] self.paths@[j]@,
                    ) && self.scopes@[j].wf() && self.model@[self.paths@[j]@] == self.scopes@[j]@ by {
                        if j != i {
                            assert(old_paths[j]@ != old_paths[i as int]@);
                        }
                    }
                    assert forall|q: Seq<char>| #[trigger]
                        self.model@.contains_key(q) implies exists|j: int|
                        0 <= j < self.paths@.len() && #[trigger] self.paths@[j]@ == q by {
                        let j = choose|j: int|
                            0 <= j < old_paths.len() && #[trigger] old_paths[j]@ == q;
                        assert(self.paths@[j]@ == q);
                    }
                }
            },
            None => {},
        }
    }
}

} // verus!
