//! Concurrent maps backing the store.
//!
//! Both collections hold a `dashmap::DashMap`, a sharded concurrent hash
//! map that mutates through `&self` behind per-shard locks. Verus has no
//! contract language for mutation through a shared reference, so each map
//! sits in a private field of an opaque struct whose wrapper methods take
//! `&mut self`; their contracts speak of the map's contents through the
//! uninterpreted functions `doc_map_of` and `index_of`. The wrappers are
//! trusted; everything built on them is verified.

use crate::document::{DocView, DocumentStored};
use dashmap::DashMap;
use std::collections::HashSet;
use vstd::prelude::*;

verus! {

/// Map from document id to the stored document.
#[verifier::external_body]
pub struct DocMap {
    inner: DashMap<String, DocumentStored>,
}

/// The contents of a `DocMap`: the stored documents' images, keyed by id.
pub uninterp spec fn doc_map_of(m: DocMap) -> Map<Seq<char>, DocView>;

impl DocMap {
    /// Relies on dashmap's `DashMap::new`: a fresh map is empty.
    #[verifier::external_body]
    pub fn new() -> (r: DocMap)
        ensures
            doc_map_of(r) =~= Map::empty(),
    {
        DocMap { inner: DashMap::new() }
    }

    /// Relies on dashmap's `DashMap::get`: returns what is stored under
    /// the key, where something is.
    #[verifier::external_body]
    pub fn get(&self, id: &str) -> (r: Option<DocumentStored>)
        ensures
            match r {
                Some(d) => doc_map_of(*self).dom().contains(id@) && d@ == doc_map_of(*self)[id@],
                None => !doc_map_of(*self).dom().contains(id@),
            },
    {
        self.inner.get(id).map(|e| e.value().clone())
    }

    /// Relies on dashmap's `DashMap::insert`: stores the value under the
    /// key and hands back the value that was there before, if any.
    #[verifier::external_body]
    pub fn insert(&mut self, id: &str, doc: DocumentStored) -> (r: Option<DocumentStored>)
        ensures
            doc_map_of(*final(self)) == doc_map_of(*old(self)).insert(id@, doc@),
            match r {
                Some(d) => doc_map_of(*old(self)).dom().contains(id@) && d@ == doc_map_of(
                    *old(self),
                )[id@],
                None => !doc_map_of(*old(self)).dom().contains(id@),
            },
    {
        self.inner.insert(id.to_owned(), doc)
    }

    /// Relies on dashmap's `DashMap::remove`: deletes the entry under the
    /// key and hands back its value, if there was one.
    #[verifier::external_body]
    pub fn remove(&mut self, id: &str) -> (r: Option<DocumentStored>)
        ensures
            doc_map_of(*final(self)) == doc_map_of(*old(self)).remove(id@),
            match r {
                Some(d) => doc_map_of(*old(self)).dom().contains(id@) && d@ == doc_map_of(
                    *old(self),
                )[id@],
                None => !doc_map_of(*old(self)).dom().contains(id@),
            },
    {
        self.inner.remove(id).map(|(_, d)| d)
    }

    /// Relies on dashmap's `DashMap::clear`: removes every entry.
    #[verifier::external_body]
    pub fn clear(&mut self)
        ensures
            doc_map_of(*final(self)) =~= Map::empty(),
    {
        self.inner.clear()
    }

    /// Relies on dashmap's `DashMap::len`: the number of entries.
    #[verifier::external_body]
    pub fn len(&self) -> (r: usize)
        requires
            doc_map_of(*self).dom().finite(),
        ensures
            r == doc_map_of(*self).dom().len(),
    {
        self.inner.len()
    }

    /// Relies on dashmap's `DashMap::iter`: walks every entry once, in no
    /// fixed order.
    #[verifier::external_body]
    pub fn all_keys(&self) -> (r: Vec<String>)
        ensures
            forall|i: int, j: int| 0 <= i < j < r@.len() ==> r@[i]@ != r@[j]@,
            forall|i: int|
                0 <= i < r@.len() ==> doc_map_of(*self).dom().contains(#[trigger] r@[i]@),
            forall|id: Seq<char>|
                doc_map_of(*self).dom().contains(id) ==> exists|i: int|
                    0 <= i < r@.len() && #[trigger] r@[i]@ == id,
    {
        self.inner.iter().map(|e| e.key().clone()).collect()
    }
}

/// Map from a derived key (a token, or a field name) to a set of ids.
#[verifier::external_body]
pub struct IdIndex {
    inner: DashMap<String, HashSet<String>>,
}

/// The contents of an `IdIndex`: for each key the set of ids under it.
pub uninterp spec fn index_of(m: IdIndex) -> Map<Seq<char>, Set<Seq<char>>>;

impl IdIndex {
    /// Relies on dashmap's `DashMap::new`: a fresh map is empty.
    #[verifier::external_body]
    pub fn new() -> (r: IdIndex)
        ensures
            index_of(r) =~= Map::empty(),
    {
        IdIndex { inner: DashMap::new() }
    }

    /// Relies on dashmap's `DashMap::get` and std's `HashSet` iteration:
    /// the ids under the key, each once, in no fixed order.
    #[verifier::external_body]
    pub fn get_ids(&self, key: &str) -> (r: Option<Vec<String>>)
        ensures
            match r {
                Some(ids) => index_of(*self).dom().contains(key@) && (forall|i: int, j: int|
                    0 <= i < j < ids@.len() ==> ids@[i]@ != ids@[j]@) && (forall|i: int|
                    0 <= i < ids@.len() ==> index_of(*self)[key@].contains(#[trigger] ids@[i]@))
                    && (forall|id: Seq<char>|
                    index_of(*self)[key@].contains(id) ==> exists|i: int|
                        0 <= i < ids@.len() && #[trigger] ids@[i]@ == id),
                None => !index_of(*self).dom().contains(key@),
            },
    {
        self.inner.get(key).map(|s| s.iter().cloned().collect())
    }

    /// Relies on dashmap's `DashMap::insert` and std's `HashSet` built
    /// from an iterator: stores under the key exactly the ids given.
    #[verifier::external_body]
    pub fn set_ids(&mut self, key: &str, ids: Vec<String>)
        ensures
            index_of(*final(self)) == index_of(*old(self)).insert(
                key@,
                ids@.map_values(|s: String| s@).to_set(),
            ),
    {
        self.inner.insert(key.to_owned(), ids.into_iter().collect());
    }

    /// Relies on dashmap's `DashMap::remove`: deletes the key.
    #[verifier::external_body]
    pub fn remove_key(&mut self, key: &str)
        ensures
            index_of(*final(self)) == index_of(*old(self)).remove(key@),
    {
        self.inner.remove(key);
    }

    /// Relies on dashmap's `DashMap::clear`: removes every entry.
    #[verifier::external_body]
    pub fn clear(&mut self)
        ensures
            index_of(*final(self)) =~= Map::empty(),
    {
        self.inner.clear()
    }

    /// Relies on dashmap's `DashMap::len`: the number of keys.
    #[verifier::external_body]
    pub fn len(&self) -> (r: usize)
        requires
            index_of(*self).dom().finite(),
        ensures
            r == index_of(*self).dom().len(),
    {
        self.inner.len()
    }
}

} // verus!
