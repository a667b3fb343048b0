//! Ordered stores of version chains, the two kinds behind the memtable.

use crate::buf::{
    bytes_slice, bytes_view, key_views, keys_between, lemma_listing_len, lemma_sorted_keys,
    lists_keys, sorted_keys, ByteMap,
};
use crate::version::{
    chain_insert, chain_read, newest_first, Snapshot, VersionChain, VersionModel, VersionedValue,
};
use arc_swap::ArcSwap;
use bytes::Bytes;
use crossbeam_skiplist::SkipMap;
use std::ops::Bound;
use std::sync::Arc;
use vstd::prelude::*;

verus! {

/// Version chains by key.
pub type Chains = Map<Seq<u8>, Seq<VersionModel>>;

/// The chain under `key`, empty if there is none.
pub open spec fn chain_of(m: Chains, key: Seq<u8>) -> Seq<VersionModel> {
    if m.contains_key(key) {
        m[key]
    } else {
        Seq::empty()
    }
}

/// What a reader at `ts` sees under `key`.
pub open spec fn chains_read(m: Chains, key: Seq<u8>, ts: u64) -> Option<VersionModel> {
    chain_read(chain_of(m, key), ts)
}

/// The chains after `v` was installed under `key`.
pub open spec fn chains_install(m: Chains, key: Seq<u8>, v: VersionModel) -> Chains {
    m.insert(key, chain_insert(chain_of(m, key), v))
}

/// Every chain is newest first.
pub open spec fn chains_wf(m: Chains) -> bool {
    forall|k: Seq<u8>| #[trigger] m.contains_key(k) ==> newest_first(m[k])
}

/// The chains that a map of chain values stands for.
pub open spec fn chain_models(m: Map<Seq<u8>, VersionChain>) -> Chains {
    m.map_values(|c: VersionChain| c@)
}

/// An ordered store of version chains.
pub trait ChainStore: Sized {
    /// The chains by key.
    spec fn contents(&self) -> Chains;

    /// The store is in order and so is every chain.
    spec fn wf(&self) -> bool;

    /// Makes an empty store.
    fn empty() -> (r: Self)
        ensures
            r.wf(),
            r.contents() == Map::<Seq<u8>, Seq<VersionModel>>::empty(),
    ;

    /// Returns a copy of the chain under `key`.
    fn chain(&self, key: &[u8]) -> (r: Option<VersionChain>)
        requires
            self.wf(),
        ensures
            r is Some <==> self.contents().contains_key(key@),
            r matches Some(c) ==> c@ == self.contents()[key@] && c.wf(),
    ;

    /// Returns the version under `key` that is visible at `snapshot`.
    fn read(&self, key: &[u8], snapshot: Snapshot) -> (r: Option<VersionedValue>)
        requires
            self.wf(),
        ensures
            r is Some <==> chains_read(self.contents(), key@, snapshot.ts) is Some,
            r matches Some(v) ==> chains_read(self.contents(), key@, snapshot.ts) == Some(v@),
    ;

    /// Puts `chain` under `key`.
    fn replace(&mut self, key: &Bytes, chain: VersionChain)
        requires
            old(self).wf(),
            chain.wf(),
        ensures
            final(self).wf(),
            final(self).contents() == old(self).contents().insert(bytes_view(*key), chain@),
    ;

    /// Removes `key`.
    fn remove(&mut self, key: &Bytes)
        requires
            old(self).wf(),
        ensures
            final(self).wf(),
            final(self).contents() == old(self).contents().remove(bytes_view(*key)),
    ;

    /// Removes every key.
    fn clear(&mut self)
        requires
            old(self).wf(),
        ensures
            final(self).wf(),
            final(self).contents() == Map::<Seq<u8>, Seq<VersionModel>>::empty(),
    ;

    /// Returns the keys in order.
    fn keys(&self) -> (r: Vec<Bytes>)
        requires
            self.wf(),
        ensures
            key_views(r@) == sorted_keys(self.contents().dom()),
            lists_keys(key_views(r@), self.contents().dom()),
    ;

    /// Returns the keys in `[lower, upper)`, in order.
    fn keys_in(&self, lower: &[u8], upper: &[u8]) -> (r: Vec<Bytes>)
        requires
            self.wf(),
        ensures
            key_views(r@) == sorted_keys(keys_between(self.contents().dom(), lower@, upper@)),
            lists_keys(key_views(r@), keys_between(self.contents().dom(), lower@, upper@)),
    ;

    /// Returns the number of keys.
    fn count(&self) -> (r: usize)
        requires
            self.wf(),
        ensures
            r == self.contents().dom().len(),
    ;

    /// Returns whether there are no keys.
    fn has_none(&self) -> (r: bool)
        requires
            self.wf(),
        ensures
            r <==> self.contents().dom() == Set::<Seq<u8>>::empty(),
    ;
}

// ── The sorted-array store ────────────────────────────────────────────────

impl ChainStore for ByteMap<VersionChain> {
    open spec fn contents(&self) -> Chains {
        chain_models(self@)
    }

    open spec fn wf(&self) -> bool {
        ByteMap::wf(self) && chains_wf(self.contents())
    }

    fn empty() -> (r: Self) {
        let r = ByteMap::new();
        assert(chain_models(r@) =~= Map::<Seq<u8>, Seq<VersionModel>>::empty());
        r
    }

    fn chain(&self, key: &[u8]) -> (r: Option<VersionChain>) {
        match self.get(key) {
            Some(c) => {
                assert(self.contents().contains_key(key@));
                Some(c.clone())
            },
            None => None,
        }
    }

    fn read(&self, key: &[u8], snapshot: Snapshot) -> (r: Option<VersionedValue>) {
        match self.get(key) {
            Some(c) => c.get(snapshot),
            None => None,
        }
    }

    fn replace(&mut self, key: &Bytes, chain: VersionChain) {
        let ghost k = bytes_view(*key);
        let ghost m = chain@;
        self.insert(key.clone(), chain);
        assert(self.contents() =~= old(self).contents().insert(k, m));
        assert forall|j: Seq<u8>| #[trigger] self.contents().contains_key(j) implies newest_first(
            self.contents()[j],
        ) by {
            if j != k {
                assert(old(self).contents().contains_key(j));
            }
        }
    }

    fn remove(&mut self, key: &Bytes) {
        let _had = ByteMap::remove(self, bytes_slice(key));
        assert(self.contents() =~= old(self).contents().remove(bytes_view(*key)));
        assert forall|j: Seq<u8>| #[trigger] self.contents().contains_key(j) implies newest_first(
            self.contents()[j],
        ) by {
            assert(old(self).contents().contains_key(j));
        }
    }

    fn clear(&mut self) {
        ByteMap::clear(self);
        assert(self.contents() =~= Map::<Seq<u8>, Seq<VersionModel>>::empty());
    }

    fn keys(&self) -> (r: Vec<Bytes>) {
        assert(self.contents().dom() =~= self@.dom());
        self.all_keys()
    }

    fn keys_in(&self, lower: &[u8], upper: &[u8]) -> (r: Vec<Bytes>) {
        assert(self.contents().dom() =~= self@.dom());
        ByteMap::keys_in(self, lower, upper)
    }

    fn count(&self) -> (r: usize) {
        proof {
            assert(self.contents().dom() =~= self@.dom());
            self.lemma_entries();
            lemma_listing_len(self.key_seq(), self@.dom());
        }
        self.len()
    }

    fn has_none(&self) -> (r: bool) {
        let n: usize = self.len();
        proof {
            assert(self.contents().dom() =~= self@.dom());
            self.lemma_entries();
            lemma_listing_len(self.key_seq(), self@.dom());
            if n == 0 {
                assert(self@.dom() =~= Set::<Seq<u8>>::empty());
            }
        }
        n == 0
    }
}

// ── The skip-list store ───────────────────────────────────────────────────

/// A `crossbeam_skiplist::SkipMap` from keys to chains, each chain behind an
/// `arc_swap::ArcSwap`, so that readers never wait for a writer.
#[verifier::external_body]
#[derive(Debug)]
pub struct ChainMap {
    inner: SkipMap<Bytes, Arc<ArcSwap<VersionChain>>>,
}

/// The chains that a skip-list store holds.
pub uninterp spec fn chain_map_view(m: ChainMap) -> Map<Seq<u8>, VersionChain>;

/// `SkipMap::new` makes an empty map.
#[verifier::external_body]
fn skip_new() -> (r: ChainMap)
    ensures
        chain_map_view(r).dom() == Set::<Seq<u8>>::empty(),
{
    ChainMap { inner: SkipMap::new() }
}

/// `SkipMap::get` finds the entry under `key`, if any; `ArcSwap::load_full`
/// gives the chain that it holds.
#[verifier::external_body]
fn skip_load(m: &ChainMap, key: &[u8]) -> (r: Option<Arc<VersionChain>>)
    ensures
        r is Some <==> chain_map_view(*m).contains_key(key@),
        r matches Some(c) ==> *c == chain_map_view(*m)[key@],
{
    m.inner.get(key).map(|entry| entry.value().load_full())
}

/// `SkipMap::get_or_insert` keeps the entry under `key` or adds one that holds
/// `chain`.
#[verifier::external_body]
fn skip_get_or_insert(m: &mut ChainMap, key: Bytes, chain: VersionChain)
    ensures
        chain_map_view(*final(m)) == (if chain_map_view(*old(m)).contains_key(bytes_view(key)) {
            chain_map_view(*old(m))
        } else {
            chain_map_view(*old(m)).insert(bytes_view(key), chain)
        }),
{
    let _entry = m.inner.get_or_insert(key, Arc::new(ArcSwap::from_pointee(chain)));
}

/// `ArcSwap::store` replaces the chain of the entry under `key`; without such
/// an entry nothing happens.
#[verifier::external_body]
fn skip_store(m: &mut ChainMap, key: &[u8], chain: VersionChain)
    ensures
        chain_map_view(*final(m)) == (if chain_map_view(*old(m)).contains_key(key@) {
            chain_map_view(*old(m)).insert(key@, chain)
        } else {
            chain_map_view(*old(m))
        }),
{
    if let Some(entry) = m.inner.get(key) {
        entry.value().store(Arc::new(chain));
    }
}

/// `SkipMap::remove` removes the entry under `key`.
#[verifier::external_body]
fn skip_remove(m: &mut ChainMap, key: &Bytes)
    ensures
        chain_map_view(*final(m)) == chain_map_view(*old(m)).remove(bytes_view(*key)),
{
    let _entry = m.inner.remove(key);
}

/// `SkipMap::clear` removes every entry.
#[verifier::external_body]
fn skip_clear(m: &mut ChainMap)
    ensures
        chain_map_view(*final(m)).dom() == Set::<Seq<u8>>::empty(),
{
    m.inner.clear()
}

/// `SkipMap::len` counts the entries.
#[verifier::external_body]
fn skip_len(m: &ChainMap) -> (r: usize)
    ensures
        r == chain_map_view(*m).dom().len(),
{
    m.inner.len()
}

/// `SkipMap::is_empty` tells whether there is no entry.
#[verifier::external_body]
fn skip_is_empty(m: &ChainMap) -> (r: bool)
    ensures
        r == (chain_map_view(*m).dom() == Set::<Seq<u8>>::empty()),
{
    m.inner.is_empty()
}

/// `SkipMap::iter` visits the entries in ascending order of their keys, which
/// for buffers is dictionary order.
#[verifier::external_body]
fn skip_keys(m: &ChainMap) -> (r: Vec<Bytes>)
    ensures
        lists_keys(key_views(r@), chain_map_view(*m).dom()),
{
    m.inner.iter().map(|entry| entry.key().clone()).collect()
}

/// `SkipMap::range` visits, in ascending order, the entries whose keys lie
/// between the two bounds.
#[verifier::external_body]
fn skip_range_keys(m: &ChainMap, lower: &[u8], upper: &[u8]) -> (r: Vec<Bytes>)
    ensures
        lists_keys(key_views(r@), keys_between(chain_map_view(*m).dom(), lower@, upper@)),
{
    let bounds = (Bound::Included(lower), Bound::Excluded(upper));
    m.inner.range::<[u8], _>(bounds).map(|entry| entry.key().clone()).collect()
}

impl ChainStore for ChainMap {
    open spec fn contents(&self) -> Chains {
        chain_models(chain_map_view(*self))
    }

    open spec fn wf(&self) -> bool {
        chains_wf(self.contents())
    }

    fn empty() -> (r: Self) {
        let r = skip_new();
        assert(r.contents() =~= Map::<Seq<u8>, Seq<VersionModel>>::empty());
        r
    }

    fn chain(&self, key: &[u8]) -> (r: Option<VersionChain>) {
        match skip_load(self, key) {
            Some(c) => {
                assert(self.contents().contains_key(key@));
                Some((*c).clone())
            },
            None => None,
        }
    }

    fn read(&self, key: &[u8], snapshot: Snapshot) -> (r: Option<VersionedValue>) {
        match skip_load(self, key) {
            Some(c) => c.get(snapshot),
            None => None,
        }
    }

    fn replace(&mut self, key: &Bytes, chain: VersionChain) {
        let ghost k = bytes_view(*key);
        let ghost m = chain@;
        skip_get_or_insert(self, key.clone(), VersionChain::new());
        skip_store(self, bytes_slice(key), chain);
        assert(self.contents() =~= old(self).contents().insert(k, m));
        assert forall|j: Seq<u8>| #[trigger] self.contents().contains_key(j) implies newest_first(
            self.contents()[j],
        ) by {
            if j != k {
                assert(old(self).contents().contains_key(j));
            }
        }
    }

    fn remove(&mut self, key: &Bytes) {
        skip_remove(self, key);
        assert(self.contents() =~= old(self).contents().remove(bytes_view(*key)));
        assert forall|j: Seq<u8>| #[trigger] self.contents().contains_key(j) implies newest_first(
            self.contents()[j],
        ) by {
            assert(old(self).contents().contains_key(j));
        }
    }

    fn clear(&mut self) {
        skip_clear(self);
        assert(self.contents() =~= Map::<Seq<u8>, Seq<VersionModel>>::empty());
    }

    fn keys(&self) -> (r: Vec<Bytes>) {
        assert(self.contents().dom() =~= chain_map_view(*self).dom());
        let r = skip_keys(self);
        proof {
            lemma_sorted_keys(key_views(r@), self.contents().dom());
        }
        r
    }

    fn keys_in(&self, lower: &[u8], upper: &[u8]) -> (r: Vec<Bytes>) {
        assert(self.contents().dom() =~= chain_map_view(*self).dom());
        let r = skip_range_keys(self, lower, upper);
        proof {
            lemma_sorted_keys(
                key_views(r@),
                keys_between(self.contents().dom(), lower@, upper@),
            );
        }
        r
    }

    fn count(&self) -> (r: usize) {
        assert(self.contents().dom() =~= chain_map_view(*self).dom());
        skip_len(self)
    }

    fn has_none(&self) -> (r: bool) {
        assert(self.contents().dom() =~= chain_map_view(*self).dom());
        skip_is_empty(self)
    }
}

} // verus!
