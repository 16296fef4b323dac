use vstd::prelude::*;

use crate::path::ancestors;
use crate::projector::{merged, resolve};
use crate::scope::lookup;
use crate::store::{scope_of, store_remove, store_set, StoreModel};

verus! {

proof fn lemma_merged_is_resolve(store: StoreModel, chain: Seq<Seq<char>>, k: Seq<char>)
    ensures
        lookup(merged(store, chain), k) == resolve(store, chain, k),
    decreases chain.len(),
{
    if chain.len() > 0 {
        lemma_merged_is_resolve(store, chain.drop_first(), k);
    }
}

proof fn lemma_merged_keys(store: StoreModel, chain: Seq<Seq<char>>, k: Seq<char>)
    ensures
        merged(store, chain).contains_key(k) <==> exists|i: int|
            0 <= i < chain.len() && #[trigger] scope_of(store, chain[i]).contains_key(k),
    decreases chain.len(),
{
    if chain.len() > 0 {
        let rest = chain.drop_first();
        lemma_merged_keys(store, rest, k);
        if merged(store, chain).contains_key(k) {
            if !scope_of(store, chain[0]).contains_key(k) {
                let i = choose|i: int| 0 <= i < rest.len() && #[trigger] scope_of(store, rest[i]).contains_key(k);
                assert(scope_of(store, chain[i + 1]).contains_key(k));
            }
        }
        if exists|i: int| 0 <= i < chain.len() && #[trigger] scope_of(store, chain[i]).contains_key(k) {
            let i = choose|i: int| 0 <= i < chain.len() && #[trigger] scope_of(store, chain[i]).contains_key(k);
            if i > 0 {
                assert(scope_of(store, rest[i - 1]).contains_key(k));
            }
        }
    }
}

proof fn lemma_first_definition(store: StoreModel, chain: Seq<Seq<char>>, k: Seq<char>, i: int)
    requires
        0 <= i < chain.len(),
        scope_of(store, chain[i]).contains_key(k),
        forall|j: int| 0 <= j < i ==> !#[trigger] scope_of(store, chain[j]).contains_key(k),
    ensures
        resolve(store, chain, k) == Some(scope_of(store, chain[i])[k]),
        lookup(merged(store, chain), k) == Some(scope_of(store, chain[i])[k]),
    decreases i,
{
    lemma_merged_is_resolve(store, chain, k);
    if i > 0 {
        let rest = chain.drop_first();
        assert forall|j: int| 0 <= j < i - 1 implies !#[trigger] scope_of(store, rest[j]).contains_key(
            k,
        ) by {
            assert(rest[j] == chain[j + 1]);
        }
        assert(!scope_of(store, chain[0]).contains_key(k));
        lemma_first_definition(store, rest, k, i - 1);
    }
}

proof fn lemma_same_scopes(s1: StoreModel, s2: StoreModel, chain: Seq<Seq<char>>)
    requires
        forall|i: int| 0 <= i < chain.len() ==> #[trigger] scope_of(s1, chain[i]) == scope_of(s2, chain[i]),
    ensures
        merged(s1, chain) == merged(s2, chain),
    decreases chain.len(),
{
    if chain.len() > 0 {
        let rest = chain.drop_first();
        assert forall|i: int| 0 <= i < rest.len() implies #[trigger] scope_of(s1, rest[i]) == scope_of(
            s2,
            rest[i],
        ) by {
            assert(rest[i] == chain[i + 1]);
        }
        assert(scope_of(s1, chain[0]) == scope_of(s2, chain[0]));
        lemma_same_scopes(s1, s2, rest);
    }
}

proof fn lemma_empty_chain_view(chain: Seq<Seq<char>>)
    ensures
        merged(StoreModel::empty(), chain) == Map::<Seq<char>, Seq<char>>::empty(),
    decreases chain.len(),
{
    if chain.len() > 0 {
        lemma_empty_chain_view(chain.drop_first());
        assert(merged(StoreModel::empty(), chain) =~= Map::<Seq<char>, Seq<char>>::empty());
    }
}

/// The nearest definition wins: where the map of the current directory
/// holds `k`, a lookup from there and the merged view both give its value,
/// whatever the directories above define.
pub proof fn lemma_own_definition_wins(store: StoreModel, pwd: Seq<char>, k: Seq<char>)
    requires
        scope_of(store, pwd).contains_key(k),
    ensures
        resolve(store, ancestors(pwd), k) == Some(scope_of(store, pwd)[k]),
        lookup(merged(store, ancestors(pwd)), k) == Some(scope_of(store, pwd)[k]),
{
    lemma_first_definition(store, ancestors(pwd), k, 0);
}

/// A key defined only at the far end of the chain (the root) is inherited:
/// a lookup from the current directory and the merged view give the root's
/// value.
pub proof fn lemma_inherits_from_root(store: StoreModel, pwd: Seq<char>, k: Seq<char>)
    requires
        scope_of(store, ancestors(pwd).last()).contains_key(k),
        forall|j: int|
            0 <= j < ancestors(pwd).len() - 1 ==> !#[trigger] scope_of(store, ancestors(pwd)[j]).contains_key(k),
    ensures
        resolve(store, ancestors(pwd), k) == Some(scope_of(store, ancestors(pwd).last())[k]),
        lookup(merged(store, ancestors(pwd)), k) == Some(
            scope_of(store, ancestors(pwd).last())[k],
        ),
{
    lemma_first_definition(store, ancestors(pwd), k, ancestors(pwd).len() - 1);
}

/// A write is scoped to the current directory: every other directory keeps
/// its map, and a lookup of the key from the current directory, as well as
/// the merged view there, then gives the value written.
pub proof fn lemma_set_is_scoped(store: StoreModel, pwd: Seq<char>, k: Seq<char>, v: Seq<char>)
    ensures
        forall|p: Seq<char>|
            p != pwd ==> #[trigger] scope_of(store_set(store, pwd, k, v), p) == scope_of(store, p),
        resolve(store_set(store, pwd, k, v), ancestors(pwd), k) == Some(v),
        lookup(merged(store_set(store, pwd, k, v), ancestors(pwd)), k) == Some(v),
{
    lemma_own_definition_wins(store_set(store, pwd, k, v), pwd, k);
}

/// A write at `pwd` is not seen from a directory `q` whose chain does not
/// pass through `pwd`: every lookup and the merged view there stay as they
/// were.
pub proof fn lemma_set_unseen_elsewhere(
    store: StoreModel,
    pwd: Seq<char>,
    q: Seq<char>,
    k: Seq<char>,
    v: Seq<char>,
)
    requires
        !ancestors(q).contains(pwd),
    ensures
        merged(store_set(store, pwd, k, v), ancestors(q)) == merged(store, ancestors(q)),
        forall|key: Seq<char>| #[trigger]
            resolve(store_set(store, pwd, k, v), ancestors(q), key) == resolve(store, ancestors(q), key),
{
    let after = store_set(store, pwd, k, v);
    let chain = ancestors(q);
    assert forall|i: int| 0 <= i < chain.len() implies #[trigger] scope_of(after, chain[i]) == scope_of(
        store,
        chain[i],
    ) by {
        assert(chain[i] != pwd);
    }
    lemma_same_scopes(after, store, chain);
    assert forall|key: Seq<char>| #[trigger]
        resolve(after, chain, key) == resolve(store, chain, key) by {
        lemma_merged_is_resolve(after, chain, key);
        lemma_merged_is_resolve(store, chain, key);
    }
}

/// The merged view agrees with lookups: for every key it holds a value
/// exactly where a lookup finds one, and the same value; and its keys are
/// those that some directory of the chain defines.
pub proof fn lemma_merge_matches_lookup(store: StoreModel, pwd: Seq<char>, k: Seq<char>)
    ensures
        lookup(merged(store, ancestors(pwd)), k) == resolve(store, ancestors(pwd), k),
        merged(store, ancestors(pwd)).contains_key(k) <==> exists|i: int|
            0 <= i < ancestors(pwd).len() && #[trigger] scope_of(store, ancestors(pwd)[i]).contains_key(k),
{
    lemma_merged_is_resolve(store, ancestors(pwd), k);
    lemma_merged_keys(store, ancestors(pwd), k);
}

/// Removing a key twice does what removing it once does, and removing a key
/// that the directory's map lacks changes nothing.
pub proof fn lemma_remove_idempotent(store: StoreModel, pwd: Seq<char>, k: Seq<char>)
    ensures
        store_remove(store_remove(store, pwd, k), pwd, k) == store_remove(store, pwd, k),
        !scope_of(store, pwd).contains_key(k) ==> store_remove(store, pwd, k) == store,
{
    if store.contains_key(pwd) {
        let once = store_remove(store, pwd, k);
        assert(once[pwd].remove(k) =~= once[pwd]);
        assert(once.insert(pwd, once[pwd]) =~= once);
        if !store[pwd].contains_key(k) {
            assert(store[pwd].remove(k) =~= store[pwd]);
            assert(store.insert(pwd, store[pwd]) =~= store);
        }
    }
}

/// An empty store, which a failed load falls back to, shows nothing from
/// any directory.
pub proof fn lemma_empty_store_shows_nothing(pwd: Seq<char>, k: Seq<char>)
    ensures
        merged(StoreModel::empty(), ancestors(pwd)) == Map::<Seq<char>, Seq<char>>::empty(),
        resolve(StoreModel::empty(), ancestors(pwd), k) is None,
{
    lemma_empty_chain_view(ancestors(pwd));
    lemma_merged_is_resolve(StoreModel::empty(), ancestors(pwd), k);
}

} // verus!
