use vstd::prelude::*;

use crate::path::{ancestor_chain, ancestors, lemma_ancestors_last, lemma_ancestors_start, lemma_ancestors_step, parent_dir};
use crate::scope::{opt_view, ScopeMap};
use crate::store::{scope_of, store_remove, store_set, ScopeStore, StoreModel};

verus! {

/// The value of `k` seen along `chain`: that of the first directory of the
/// chain whose map holds `k`.
pub open spec fn resolve(store: StoreModel, chain: Seq<Seq<char>>, k: Seq<char>) -> Option<
    Seq<char>,
>
    decreases chain.len(),
{
    if chain.len() == 0 {
        None
    } else if scope_of(store, chain[0]).contains_key(k) {
        Some(scope_of(store, chain[0])[k])
    } else {
        resolve(store, chain.drop_first(), k)
    }
}

/// The maps of the directories of `chain` merged from its far end to its
/// start, so that a definition nearer the start wins.
pub open spec fn merged(store: StoreModel, chain: Seq<Seq<char>>) -> Map<Seq<char>, Seq<char>>
    decreases chain.len(),
{
    if chain.len() == 0 {
        Map::empty()
    } else {
        merged(store, chain.drop_first()).union_prefer_right(scope_of(store, chain[0]))
    }
}

/// The empty store, which a failed load falls back to.
pub fn default_data() -> (r: ScopeStore)
    ensures
        r.wf(),
        r@ == StoreModel::empty(),
{
    ScopeStore::new()
}

/// A store seen from one current directory: reads walk up from it, writes
/// go to it alone.
pub struct Projector {
    pwd: String,
    data: ScopeStore,
}

impl Projector {
    /// The current directory.
    pub closed spec fn cwd(&self) -> Seq<char> {
        self.pwd@
    }

    /// What the store holds.
    pub closed spec fn data(&self) -> StoreModel {
        self.data@
    }

    /// The store is well formed.
    pub closed spec fn wf(&self) -> bool {
        self.data.wf()
    }

    /// A projector for directory `pwd` over `data`.
    pub fn new(pwd: String, data: ScopeStore) -> (r: Projector)
        requires
            data.wf(),
        ensures
            r.wf(),
            r.cwd() == pwd@,
            r.data() == data@,
    {
        Projector { pwd, data }
    }

    /// A projector for directory `pwd` over the store that was loaded, or
    /// over an empty store where loading failed (`None`).
    pub fn from_config(pwd: String, loaded: Option<ScopeStore>) -> (r: Projector)
        requires
            loaded matches Some(s) ==> s.wf(),
        ensures
            r.wf(),
            r.cwd() == pwd@,
            r.data() == match loaded {
                Some(s) => s@,
                None => StoreModel::empty(),
            },
    {
        let data = match loaded {
            Some(s) => s,
            None => default_data(),
        };
        Projector { pwd, data }
    }

    /// The current directory.
    pub fn pwd(&self) -> (r: &String)
        ensures
            r@ == self.cwd(),
    {
        &self.pwd
    }

    /// The store.
    pub fn store(&self) -> (r: &ScopeStore)
        requires
            self.wf(),
        ensures
            r.wf(),
            r@ == self.data(),
    {
        &self.data
    }

    /// Every key seen from the current directory with its effective value:
    /// the maps from the root down to the current directory, merged in that
    /// order.
    pub fn get_value_all(&self) -> (r: ScopeMap)
        requires
            self.wf(),
        ensures
            r.wf(),
            r@ == merged(self.data(), ancestors(self.cwd())),
    {
        let chain = ancestor_chain(&self.pwd);
        let ghost cv = chain@.map_values(|s: String| s@);
        let ghost len = cv.len() as int;
        let mut out = ScopeMap::new();
        let mut i: usize = chain.len();
        assert(cv.subrange(len, len) =~= Seq::<Seq<char>>::empty());
        while i > 0
            invariant
                self.wf(),
                out.wf(),
                i <= chain@.len(),
                len == chain@.len(),
                cv == chain@.map_values(|s: String| s@),
                out@ == merged(self.data@, cv.subrange(i as int, len)),
            decreases i,
        {
            i -= 1;
            let ghost before = out@;
            let ghost sub = cv.subrange(i as int, len);
            assert(sub.drop_first() =~= cv.subrange(i + 1, len));
            assert(sub[0] == chain@[i as int]@);
            match self.data.scope(chain[i].as_str()) {
                Some(m) => {
                    out.extend_from(m);
                },
                None => {
                    assert(before.union_prefer_right(Map::empty()) =~= before);
                },
            }
        }
        assert(cv.subrange(0, len) =~= cv);
        out
    }

    /// The value of `key` at the nearest directory, from the current one up
    /// to the root, whose map holds it; `None` where none does. The walk
    /// stops at the first such directory.
    pub fn get_value(&self, key: &str) -> (r: Option<&String>)
        requires
            self.wf(),
        ensures
            opt_view(r) == resolve(self.data(), ancestors(self.cwd()), key@),
    {
        let mut curr: String = self.pwd.clone();
        loop
            invariant
                self.wf(),
                resolve(self.data@, ancestors(curr@), key@) == resolve(
                    self.data@,
                    ancestors(self.pwd@),
                    key@,
                ),
            decreases curr@.len(),
        {
            proof {
                lemma_ancestors_start(curr@);
            }
            match self.data.scope(curr.as_str()) {
                Some(m) => match m.get(key) {
                    Some(v) => {
                        return Some(v);
                    },
                    None => {},
                },
                None => {},
            }
            match parent_dir(&curr) {
                Some(q) => {
                    proof {
                        lemma_ancestors_step(curr@, q@);
                    }
                    curr = q;
                },
                None => {
                    proof {
                        lemma_ancestors_last(curr@);
                        assert(ancestors(curr@).drop_first().len() == 0);
                        assert(resolve(self.data@, ancestors(curr@).drop_first(), key@) is None);
                    }
                    return None;
                },
            }
        }
    }

    /// Writes `key = value` into the map of the current directory, and of no
    /// other.
    pub fn set_value(&mut self, key: String, value: String)
        requires
            old(self).wf(),
        ensures
            final(self).wf(),
            final(self).cwd() == old(self).cwd(),
            final(self).data() == store_set(old(self).data(), old(self).cwd(), key@, value@),
    {
        let p = self.pwd.clone();
        self.data.set(p, key, value);
    }

    /// Takes `key` out of the map of the current directory, and of no other;
    /// nothing happens where that map lacks it.
    pub fn remove_value(&mut self, key: &str)
        requires
            old(self).wf(),
        ensures
            final(self).wf(),
            final(self).cwd() == old(self).cwd(),
            final(self).data() == store_remove(old(self).data(), old(self).cwd(), key@),
    {
        self.data.remove(self.pwd.as_str(), key);
    }
}

} // verus!
