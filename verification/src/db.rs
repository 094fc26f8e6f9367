//! The concurrent document store and its two derived indexes.
//!
//! The store maps document ids to documents and keeps two secondary
//! indexes: token to ids, and field name to ids. The store's invariant,
//! `wf`, says the indexes exactly reflect the current document set: an id
//! stands under a key exactly while its document carries that token or
//! field, and no key maps to an empty set. Updates clean the old entries
//! first and insert the new ones after, and every operation leaves the
//! invariant standing.

use crate::document::{DocView, DocumentStored};
use crate::maps::{doc_map_of, index_of, DocMap, IdIndex};
use vstd::prelude::*;
use vstd::string::*;

verus! {

/// The store's errors.
#[derive(Debug)]
pub enum DBError {
    /// The referenced document is absent.
    NotFound(String),
    /// Reserved for a persistence layer; no store operation raises it.
    StorageError(String),
    /// Reserved for a persistence layer; no store operation raises it.
    Duplicate(String),
}

impl DBError {
    /// The error rendered for display.
    pub fn message(&self) -> (r: String)
        ensures
            match self {
                DBError::NotFound(id) => r@ == "Document not found: "@ + id@,
                DBError::StorageError(m) => r@ == "Storage error: "@ + m@,
                DBError::Duplicate(id) => r@ == "Duplicate document: "@ + id@,
            },
    {
        match self {
            DBError::NotFound(id) => String::from_str("Document not found: ").concat(id.as_str()),
            DBError::StorageError(m) => String::from_str("Storage error: ").concat(m.as_str()),
            DBError::Duplicate(id) => String::from_str("Duplicate document: ").concat(id.as_str()),
        }
    }
}

/// Counts observed by `stats`: documents, token-index keys, field-index
/// keys.
#[derive(Debug)]
pub struct DBStats {
    pub document_count: usize,
    pub token_index_size: usize,
    pub field_index_size: usize,
}

impl Clone for DBStats {
    fn clone(&self) -> (r: Self)
        ensures
            r == *self,
    {
        DBStats {
            document_count: self.document_count,
            token_index_size: self.token_index_size,
            field_index_size: self.field_index_size,
        }
    }
}

/// The ids of the documents in `docs` that carry the token `t`.
pub open spec fn ids_with_token(docs: Map<Seq<char>, DocView>, t: Seq<char>) -> Set<Seq<char>> {
    Set::new(|id: Seq<char>| docs.dom().contains(id) && docs[id].tokens().contains(t))
}

/// The ids of the documents in `docs` that carry the field name `n`.
pub open spec fn ids_with_field(docs: Map<Seq<char>, DocView>, n: Seq<char>) -> Set<Seq<char>> {
    Set::new(|id: Seq<char>| docs.dom().contains(id) && docs[id].names().contains(n))
}

/// What one index key must hold: the key is absent when its set is empty,
/// and maps to exactly that set otherwise.
pub open spec fn index_entry_is(
    idx: Map<Seq<char>, Set<Seq<char>>>,
    key: Seq<char>,
    s: Set<Seq<char>>,
) -> bool {
    if s == Set::<Seq<char>>::empty() {
        !idx.dom().contains(key)
    } else {
        idx.dom().contains(key) && idx[key] == s
    }
}

/// The set an index holds under a key, empty where the key is absent.
pub open spec fn entry_or_empty(idx: Map<Seq<char>, Set<Seq<char>>>, key: Seq<char>) -> Set<
    Seq<char>,
> {
    if idx.dom().contains(key) {
        idx[key]
    } else {
        Set::empty()
    }
}

/// An index after one id leaves one key's set, the key deleted where its
/// set empties.
pub open spec fn with_id_pruned(
    idx: Map<Seq<char>, Set<Seq<char>>>,
    key: Seq<char>,
    id: Seq<char>,
) -> Map<Seq<char>, Set<Seq<char>>> {
    if !idx.dom().contains(key) {
        idx
    } else if idx[key].remove(id) == Set::<Seq<char>>::empty() {
        idx.remove(key)
    } else {
        idx.insert(key, idx[key].remove(id))
    }
}

/// The tokens of the first `j` fields of a document.
pub open spec fn prefix_tokens(d: DocView, j: int) -> Set<Seq<char>> {
    Set::new(
        |t: Seq<char>|
            exists|k: int| 0 <= k < j && k < d.fields.len() && #[trigger] d.fields[k].record.token
                == t,
    )
}

/// The names of the first `j` fields of a document.
pub open spec fn prefix_names(d: DocView, j: int) -> Set<Seq<char>> {
    Set::new(
        |n: Seq<char>|
            exists|k: int| 0 <= k < j && k < d.fields.len() && #[trigger] d.fields[k].name == n,
    )
}

/// Walking one more field adds exactly its token and its name.
proof fn lemma_prefix_step(d: DocView, j: int)
    requires
        0 <= j < d.fields.len(),
    ensures
        prefix_tokens(d, j + 1) =~= prefix_tokens(d, j).insert(d.fields[j].record.token),
        prefix_names(d, j + 1) =~= prefix_names(d, j).insert(d.fields[j].name),
{
    assert forall|t: Seq<char>| prefix_tokens(d, j + 1).contains(t) implies prefix_tokens(
        d,
        j,
    ).insert(d.fields[j].record.token).contains(t) by {
        let k = choose|k: int|
            0 <= k < j + 1 && k < d.fields.len() && #[trigger] d.fields[k].record.token == t;
        if k < j {
            assert(prefix_tokens(d, j).contains(t));
        }
    }
    assert forall|t: Seq<char>| prefix_tokens(d, j).insert(d.fields[j].record.token).contains(t)
        implies prefix_tokens(d, j + 1).contains(t) by {
        if t == d.fields[j].record.token {
            assert(d.fields[j].record.token == t);
        } else {
            let k = choose|k: int|
                0 <= k < j && k < d.fields.len() && #[trigger] d.fields[k].record.token == t;
            assert(d.fields[k].record.token == t);
        }
    }
    assert forall|n: Seq<char>| prefix_names(d, j + 1).contains(n) implies prefix_names(
        d,
        j,
    ).insert(d.fields[j].name).contains(n) by {
        let k = choose|k: int|
            0 <= k < j + 1 && k < d.fields.len() && #[trigger] d.fields[k].name == n;
        if k < j {
            assert(prefix_names(d, j).contains(n));
        }
    }
    assert forall|n: Seq<char>| prefix_names(d, j).insert(d.fields[j].name).contains(n)
        implies prefix_names(d, j + 1).contains(n) by {
        if n == d.fields[j].name {
            assert(d.fields[j].name == n);
        } else {
            let k = choose|k: int|
                0 <= k < j && k < d.fields.len() && #[trigger] d.fields[k].name == n;
            assert(d.fields[k].name == n);
        }
    }
}

/// The whole prefix holds exactly the document's tokens and names.
proof fn lemma_prefix_all(d: DocView)
    ensures
        prefix_tokens(d, d.fields.len() as int) =~= d.tokens(),
        prefix_names(d, d.fields.len() as int) =~= d.names(),
{
}

/// The set of views of the strings in a sequence.
pub open spec fn seq_view_set(ids: Seq<String>) -> Set<Seq<char>> {
    Set::new(|x: Seq<char>| exists|k: int| 0 <= k < ids.len() && #[trigger] ids[k]@ == x)
}

/// What `set_ids` stores is the set of views of the ids given.
proof fn lemma_view_set(ids: Seq<String>)
    ensures
        ids.map_values(|s: String| s@).to_set() =~= seq_view_set(ids),
{
    let m = ids.map_values(|s: String| s@);
    assert forall|x: Seq<char>| m.to_set().contains(x) implies seq_view_set(ids).contains(x) by {
        let k = choose|k: int| 0 <= k < m.len() && #[trigger] m[k] == x;
        assert(ids[k]@ == x);
    }
    assert forall|x: Seq<char>| seq_view_set(ids).contains(x) implies m.to_set().contains(x) by {
        let k = choose|k: int| 0 <= k < ids.len() && #[trigger] ids[k]@ == x;
        assert(m[k] == x);
        assert(m.contains(x));
    }
}

/// Adds an id under a key: the key's set grows by the id, a missing key
/// is created.
fn index_add_id(idx: &mut IdIndex, key: &str, id: &String)
    ensures
        index_of(*final(idx)) == index_of(*old(idx)).insert(
            key@,
            entry_or_empty(index_of(*old(idx)), key@).insert(id@),
        ),
{
    let ghost pre = index_of(*idx);
    let mut ids: Vec<String> = match idx.get_ids(key) {
        Some(v) => v,
        None => Vec::new(),
    };
    let ghost ids0 = ids@;
    let mut present = false;
    let mut i: usize = 0;
    while i < ids.len()
        invariant
            ids@ == ids0,
            0 <= i <= ids.len(),
            present <==> exists|k: int| 0 <= k < i && #[trigger] ids0[k]@ == id@,
        decreases ids.len() - i,
    {
        if ids[i] == *id {
            present = true;
            proof {
                assert(ids0[i as int]@ == id@);
            }
        }
        i += 1;
    }
    if !present {
        ids.push(id.clone());
    }
    let ghost ids1 = ids@;
    idx.set_ids(key, ids);
    proof {
        let target = entry_or_empty(pre, key@).insert(id@);
        lemma_view_set(ids1);
        assert(seq_view_set(ids1) =~= target) by {
            assert forall|x: Seq<char>| seq_view_set(ids1).contains(x) implies target.contains(
                x,
            ) by {
                let k = choose|k: int| 0 <= k < ids1.len() && #[trigger] ids1[k]@ == x;
                if k < ids0.len() {
                    assert(ids0[k]@ == x);
                    assert(entry_or_empty(pre, key@).contains(x));
                } else {
                    assert(x == id@);
                }
            }
            assert forall|x: Seq<char>| target.contains(x) implies seq_view_set(ids1).contains(
                x,
            ) by {
                if x == id@ {
                    if present {
                        let k = choose|k: int| 0 <= k < ids0.len() && #[trigger] ids0[k]@ == id@;
                        assert(ids1[k]@ == x);
                    } else {
                        assert(ids1[ids0.len() as int]@ == x);
                    }
                } else {
                    assert(entry_or_empty(pre, key@).contains(x));
                    let k = choose|k: int| 0 <= k < ids0.len() && #[trigger] ids0[k]@ == x;
                    assert(ids1[k]@ == x);
                }
            }
        }
    }
}

/// Removes an id from under a key, deleting the key where its set
/// empties; a missing key is left missing.
fn index_remove_id(idx: &mut IdIndex, key: &str, id: &String)
    ensures
        index_of(*final(idx)) == with_id_pruned(index_of(*old(idx)), key@, id@),
{
    let ghost pre = index_of(*idx);
    match idx.get_ids(key) {
        None => {},
        Some(ids) => {
            let ghost ids0 = ids@;
            let mut out: Vec<String> = Vec::new();
            let mut i: usize = 0;
            while i < ids.len()
                invariant
                    ids@ == ids0,
                    0 <= i <= ids.len(),
                    forall|k: int| 0 <= k < out@.len() ==> #[trigger] out@[k]@ != id@,
                    forall|k: int|
                        #![trigger out@[k]]
                        0 <= k < out@.len() ==> exists|j: int|
                            0 <= j < i && #[trigger] ids0[j]@ == out@[k]@,
                    forall|j: int|
                        0 <= j < i && #[trigger] ids0[j]@ != id@ ==> exists|k: int|
                            0 <= k < out@.len() && #[trigger] out@[k]@ == ids0[j]@,
                decreases ids.len() - i,
            {
                let ghost out_pre = out@;
                if !(ids[i] == *id) {
                    out.push(ids[i].clone());
                    proof {
                        assert(out@[out@.len() - 1]@ == ids0[i as int]@);
                        assert forall|j: int| 0 <= j <= i && ids0[j]@ != id@ implies exists|k: int|
                            0 <= k < out@.len() && #[trigger] out@[k]@ == ids0[j]@ by {
                            if j < i {
                                let k = choose|k: int|
                                    0 <= k < out_pre.len() && #[trigger] out_pre[k]@ == ids0[j]@;
                                assert(out@[k]@ == ids0[j]@);
                            } else {
                                assert(out@[out@.len() - 1]@ == ids0[j]@);
                            }
                        }
                    }
                } else {
                    proof {
                        assert(ids0[i as int]@ == id@);
                    }
                }
                i += 1;
            }
            let ghost entry = pre[key@];
            if out.is_empty() {
                idx.remove_key(key);
                proof {
                    assert(entry.remove(id@) =~= Set::empty()) by {
                        assert forall|x: Seq<char>| !(entry.remove(id@).contains(x)) by {
                            if entry.contains(x) && x != id@ {
                                let j = choose|j: int|
                                    0 <= j < ids0.len() && #[trigger] ids0[j]@ == x;
                                assert(exists|k: int|
                                    0 <= k < out@.len() && #[trigger] out@[k]@ == ids0[j]@);
                            }
                        }
                    }
                    assert(index_of(*idx) == with_id_pruned(pre, key@, id@));
                }
            } else {
                let ghost out0 = out@;
                idx.set_ids(key, out);
                proof {
                    lemma_view_set(out0);
                    assert(seq_view_set(out0) =~= entry.remove(id@)) by {
                        assert forall|x: Seq<char>| seq_view_set(out0).contains(x) implies
                            entry.remove(id@).contains(x) by {
                            let k = choose|k: int| 0 <= k < out0.len() && #[trigger] out0[k]@ == x;
                            let j = choose|j: int|
                                0 <= j < ids0.len() && #[trigger] ids0[j]@ == out0[k]@;
                            assert(entry.contains(x));
                            assert(x != id@);
                        }
                        assert forall|x: Seq<char>| entry.remove(id@).contains(x) implies
                            seq_view_set(out0).contains(x) by {
                            let j = choose|j: int| 0 <= j < ids0.len() && #[trigger] ids0[j]@ == x;
                            let k = choose|k: int|
                                0 <= k < out0.len() && #[trigger] out0[k]@ == ids0[j]@;
                            assert(out0[k]@ == x);
                        }
                    }
                    assert(entry.remove(id@) != Set::<Seq<char>>::empty()) by {
                        assert(seq_view_set(out0).contains(out0[0]@));
                    }
                    assert(index_of(*idx) == with_id_pruned(pre, key@, id@));
                }
            }
        },
    }
}

/// Pruning one id out of one token key keeps the index exactly one step
/// ahead: the cleaned keys grow by that key.
proof fn lemma_prune_token_step(
    pre: Map<Seq<char>, Set<Seq<char>>>,
    post: Map<Seq<char>, Set<Seq<char>>>,
    docs: Map<Seq<char>, DocView>,
    covered: Set<Seq<char>>,
    key: Seq<char>,
    did: Seq<char>,
)
    requires
        post == with_id_pruned(pre, key, did),
        ids_with_token(docs, key).contains(did),
        forall|t: Seq<char>|
            #![trigger ids_with_token(docs, t)]
            index_entry_is(
                pre,
                t,
                if covered.contains(t) {
                    ids_with_token(docs, t).remove(did)
                } else {
                    ids_with_token(docs, t)
                },
            ),
    ensures
        forall|t: Seq<char>|
            #![trigger ids_with_token(docs, t)]
            index_entry_is(
                post,
                t,
                if covered.insert(key).contains(t) {
                    ids_with_token(docs, t).remove(did)
                } else {
                    ids_with_token(docs, t)
                },
            ),
{
    assert forall|t: Seq<char>|
        index_entry_is(
            post,
            t,
            if covered.insert(key).contains(t) {
                ids_with_token(docs, t).remove(did)
            } else {
                ids_with_token(docs, t)
            },
        ) by {
        assert(index_entry_is(
            pre,
            t,
            if covered.contains(t) {
                ids_with_token(docs, t).remove(did)
            } else {
                ids_with_token(docs, t)
            },
        ));
        let s = ids_with_token(docs, t);
        if t == key {
            if covered.contains(key) {
                if s.remove(did) == Set::<Seq<char>>::empty() {
                } else {
                    assert(pre[key].remove(did) =~= pre[key]);
                }
            } else {
                assert(s.contains(did));
                assert(s != Set::<Seq<char>>::empty());
            }
        }
    }
}

/// Pruning one id out of one field-name key, stated as for tokens.
proof fn lemma_prune_field_step(
    pre: Map<Seq<char>, Set<Seq<char>>>,
    post: Map<Seq<char>, Set<Seq<char>>>,
    docs: Map<Seq<char>, DocView>,
    covered: Set<Seq<char>>,
    key: Seq<char>,
    did: Seq<char>,
)
    requires
        post == with_id_pruned(pre, key, did),
        ids_with_field(docs, key).contains(did),
        forall|n: Seq<char>|
            #![trigger ids_with_field(docs, n)]
            index_entry_is(
                pre,
                n,
                if covered.contains(n) {
                    ids_with_field(docs, n).remove(did)
                } else {
                    ids_with_field(docs, n)
                },
            ),
    ensures
        forall|n: Seq<char>|
            #![trigger ids_with_field(docs, n)]
            index_entry_is(
                post,
                n,
                if covered.insert(key).contains(n) {
                    ids_with_field(docs, n).remove(did)
                } else {
                    ids_with_field(docs, n)
                },
            ),
{
    assert forall|n: Seq<char>|
        index_entry_is(
            post,
            n,
            if covered.insert(key).contains(n) {
                ids_with_field(docs, n).remove(did)
            } else {
                ids_with_field(docs, n)
            },
        ) by {
        assert(index_entry_is(
            pre,
            n,
            if covered.contains(n) {
                ids_with_field(docs, n).remove(did)
            } else {
                ids_with_field(docs, n)
            },
        ));
        let s = ids_with_field(docs, n);
        if n == key {
            if covered.contains(key) {
                if s.remove(did) == Set::<Seq<char>>::empty() {
                } else {
                    assert(pre[key].remove(did) =~= pre[key]);
                }
            } else {
                assert(s.contains(did));
                assert(s != Set::<Seq<char>>::empty());
            }
        }
    }
}

/// Registering an id under one token key keeps the index exactly one
/// step ahead: the covered keys grow by that key.
proof fn lemma_add_token_step(
    pre: Map<Seq<char>, Set<Seq<char>>>,
    post: Map<Seq<char>, Set<Seq<char>>>,
    docs: Map<Seq<char>, DocView>,
    covered: Set<Seq<char>>,
    key: Seq<char>,
    did: Seq<char>,
)
    requires
        post == pre.insert(key, entry_or_empty(pre, key).insert(did)),
        !docs.dom().contains(did),
        forall|t: Seq<char>|
            #![trigger ids_with_token(docs, t)]
            index_entry_is(
                pre,
                t,
                if covered.contains(t) {
                    ids_with_token(docs, t).insert(did)
                } else {
                    ids_with_token(docs, t)
                },
            ),
    ensures
        forall|t: Seq<char>|
            #![trigger ids_with_token(docs, t)]
            index_entry_is(
                post,
                t,
                if covered.insert(key).contains(t) {
                    ids_with_token(docs, t).insert(did)
                } else {
                    ids_with_token(docs, t)
                },
            ),
{
    assert forall|t: Seq<char>|
        index_entry_is(
            post,
            t,
            if covered.insert(key).contains(t) {
                ids_with_token(docs, t).insert(did)
            } else {
                ids_with_token(docs, t)
            },
        ) by {
        let s = ids_with_token(docs, t);
        assert(index_entry_is(
            pre,
            t,
            if covered.contains(t) {
                s.insert(did)
            } else {
                s
            },
        ));
        if t == key {
            if covered.contains(key) {
                assert(entry_or_empty(pre, key) == s.insert(did));
                assert(s.insert(did).insert(did) =~= s.insert(did));
            } else {
                if s == Set::<Seq<char>>::empty() {
                    assert(entry_or_empty(pre, key) =~= s);
                } else {
                    assert(entry_or_empty(pre, key) == s);
                }
            }
            assert(post[key].contains(did));
            assert(post[key] != Set::<Seq<char>>::empty());
        }
    }
}

/// Registering an id under one field-name key, stated as for tokens.
proof fn lemma_add_field_step(
    pre: Map<Seq<char>, Set<Seq<char>>>,
    post: Map<Seq<char>, Set<Seq<char>>>,
    docs: Map<Seq<char>, DocView>,
    covered: Set<Seq<char>>,
    key: Seq<char>,
    did: Seq<char>,
)
    requires
        post == pre.insert(key, entry_or_empty(pre, key).insert(did)),
        !docs.dom().contains(did),
        forall|n: Seq<char>|
            #![trigger ids_with_field(docs, n)]
            index_entry_is(
                pre,
                n,
                if covered.contains(n) {
                    ids_with_field(docs, n).insert(did)
                } else {
                    ids_with_field(docs, n)
                },
            ),
    ensures
        forall|n: Seq<char>|
            #![trigger ids_with_field(docs, n)]
            index_entry_is(
                post,
                n,
                if covered.insert(key).contains(n) {
                    ids_with_field(docs, n).insert(did)
                } else {
                    ids_with_field(docs, n)
                },
            ),
{
    assert forall|n: Seq<char>|
        index_entry_is(
            post,
            n,
            if covered.insert(key).contains(n) {
                ids_with_field(docs, n).insert(did)
            } else {
                ids_with_field(docs, n)
            },
        ) by {
        let s = ids_with_field(docs, n);
        assert(index_entry_is(
            pre,
            n,
            if covered.contains(n) {
                s.insert(did)
            } else {
                s
            },
        ));
        if n == key {
            if covered.contains(key) {
                assert(entry_or_empty(pre, key) == s.insert(did));
                assert(s.insert(did).insert(did) =~= s.insert(did));
            } else {
                if s == Set::<Seq<char>>::empty() {
                    assert(entry_or_empty(pre, key) =~= s);
                } else {
                    assert(entry_or_empty(pre, key) == s);
                }
            }
            assert(post[key].contains(did));
            assert(post[key] != Set::<Seq<char>>::empty());
        }
    }
}

/// The store: a concurrent document map and its two derived indexes.
pub struct InMemoryDB {
    documents: DocMap,
    token_index: IdIndex,
    field_index: IdIndex,
}

impl InMemoryDB {
    /// The current document set, keyed by id.
    pub closed spec fn docs(self) -> Map<Seq<char>, DocView> {
        doc_map_of(self.documents)
    }

    /// The current token index.
    pub closed spec fn token_idx(self) -> Map<Seq<char>, Set<Seq<char>>> {
        index_of(self.token_index)
    }

    /// The current field-name index.
    pub closed spec fn field_idx(self) -> Map<Seq<char>, Set<Seq<char>>> {
        index_of(self.field_index)
    }

    /// The store's invariant: documents are well formed and keyed by
    /// their own id, and both indexes exactly reflect the document set.
    pub open spec fn wf(self) -> bool {
        &&& self.docs().dom().finite()
        &&& self.token_idx().dom().finite()
        &&& self.field_idx().dom().finite()
        &&& forall|id: Seq<char>|
            #[trigger] self.docs().dom().contains(id) ==> self.docs()[id].wf()
                && self.docs()[id].id == id
        &&& forall|t: Seq<char>|
            #[trigger] index_entry_is(self.token_idx(), t, ids_with_token(self.docs(), t))
        &&& forall|n: Seq<char>|
            #[trigger] index_entry_is(self.field_idx(), n, ids_with_field(self.docs(), n))
    }

    /// A fresh, empty store.
    pub fn new() -> (r: InMemoryDB)
        ensures
            r.wf(),
            r.docs() =~= Map::empty(),
            r.token_idx() =~= Map::empty(),
            r.field_idx() =~= Map::empty(),
    {
        let r = InMemoryDB {
            documents: DocMap::new(),
            token_index: IdIndex::new(),
            field_index: IdIndex::new(),
        };
        proof {
            Self::lemma_empty_reflects(r);
        }
        r
    }

    /// With all three maps empty the invariant holds.
    proof fn lemma_empty_reflects(r: InMemoryDB)
        requires
            r.docs() == Map::<Seq<char>, DocView>::empty(),
            r.token_idx() == Map::<Seq<char>, Set<Seq<char>>>::empty(),
            r.field_idx() == Map::<Seq<char>, Set<Seq<char>>>::empty(),
        ensures
            r.wf(),
    {
        assert forall|t: Seq<char>|
            index_entry_is(r.token_idx(), t, ids_with_token(r.docs(), t)) by {
            assert(ids_with_token(r.docs(), t) =~= Set::empty());
        }
        assert forall|n: Seq<char>|
            index_entry_is(r.field_idx(), n, ids_with_field(r.docs(), n)) by {
            assert(ids_with_field(r.docs(), n) =~= Set::empty());
        }
        assert(r.docs().dom() =~= Set::empty());
        assert(r.token_idx().dom() =~= Set::empty());
        assert(r.field_idx().dom() =~= Set::empty());
    }

    /// Fetches the document of the given id as a snapshot; fails with
    /// `NotFound` exactly when the id is absent.
    pub fn get(&self, id: &str) -> (r: Result<DocumentStored, DBError>)
        requires
            self.wf(),
        ensures
            match r {
                Ok(d) => self.docs().dom().contains(id@) && d@ == self.docs()[id@],
                Err(e) => !self.docs().dom().contains(id@) && (e matches DBError::NotFound(s)
                    && s@ == id@),
            },
    {
        match self.documents.get(id) {
            Some(d) => Ok(d),
            None => Err(DBError::NotFound(id.to_owned())),
        }
    }

    /// Empties the document map and both indexes, whatever the state.
    pub fn clear(&mut self)
        ensures
            final(self).wf(),
            final(self).docs() =~= Map::empty(),
            final(self).token_idx() =~= Map::empty(),
            final(self).field_idx() =~= Map::empty(),
    {
        self.documents.clear();
        self.token_index.clear();
        self.field_index.clear();
        proof {
            Self::lemma_empty_reflects(*self);
        }
    }

    /// The ids of all stored documents, each once, in no fixed order.
    pub fn all_ids(&self) -> (r: Vec<String>)
        requires
            self.wf(),
        ensures
            forall|i: int, j: int| 0 <= i < j < r@.len() ==> r@[i]@ != r@[j]@,
            forall|i: int| 0 <= i < r@.len() ==> self.docs().dom().contains(#[trigger] r@[i]@),
            forall|id: Seq<char>|
                self.docs().dom().contains(id) ==> exists|i: int|
                    0 <= i < r@.len() && #[trigger] r@[i]@ == id,
    {
        self.documents.all_keys()
    }

    /// Removes every index entry this document's fields imply — each
    /// (token, id) and (name, id) pair — pruning keys whose sets empty.
    /// `docs` is the document set both indexes reflect on entry; it must
    /// hold this document under this id. Afterwards both indexes reflect
    /// `docs` without the id.
    fn cleanup_indexes(
        &mut self,
        doc_id: &String,
        doc: &DocumentStored,
        Ghost(docs): Ghost<Map<Seq<char>, DocView>>,
    )
        requires
            docs.dom().contains(doc_id@),
            docs[doc_id@] == doc@,
            index_of(old(self).token_index).dom().finite(),
            index_of(old(self).field_index).dom().finite(),
            forall|t: Seq<char>|
                #[trigger] index_entry_is(
                    index_of(old(self).token_index),
                    t,
                    ids_with_token(docs, t),
                ),
            forall|n: Seq<char>|
                #[trigger] index_entry_is(
                    index_of(old(self).field_index),
                    n,
                    ids_with_field(docs, n),
                ),
        ensures
            final(self).documents == old(self).documents,
            index_of(final(self).token_index).dom().finite(),
            index_of(final(self).field_index).dom().finite(),
            forall|t: Seq<char>|
                #[trigger] index_entry_is(
                    index_of(final(self).token_index),
                    t,
                    ids_with_token(docs.remove(doc_id@), t),
                ),
            forall|n: Seq<char>|
                #[trigger] index_entry_is(
                    index_of(final(self).field_index),
                    n,
                    ids_with_field(docs.remove(doc_id@), n),
                ),
    {
        let ghost dv = doc@;
        let ghost did = doc_id@;
        proof {
            assert forall|t: Seq<char>| !(prefix_tokens(dv, 0).contains(t)) by {}
            assert forall|n: Seq<char>| !(prefix_names(dv, 0).contains(n)) by {}
        }
        let mut j: usize = 0;
        while j < doc.fields.len()
            invariant
                0 <= j <= doc.fields.len(),
                dv == doc@,
                did == doc_id@,
                docs.dom().contains(did),
                docs[did] == dv,
                self.documents == old(self).documents,
                index_of(self.token_index).dom().finite(),
                index_of(self.field_index).dom().finite(),
                forall|t: Seq<char>|
                    #![trigger ids_with_token(docs, t)]
                    index_entry_is(
                        index_of(self.token_index),
                        t,
                        if prefix_tokens(dv, j as int).contains(t) {
                            ids_with_token(docs, t).remove(did)
                        } else {
                            ids_with_token(docs, t)
                        },
                    ),
                forall|n: Seq<char>|
                    #![trigger ids_with_field(docs, n)]
                    index_entry_is(
                        index_of(self.field_index),
                        n,
                        if prefix_names(dv, j as int).contains(n) {
                            ids_with_field(docs, n).remove(did)
                        } else {
                            ids_with_field(docs, n)
                        },
                    ),
            decreases doc.fields.len() - j,
        {
            let ghost ti_pre = index_of(self.token_index);
            let ghost fi_pre = index_of(self.field_index);
            let entry = &doc.fields[j];
            proof {
                assert(entry@ == dv.fields[j as int]);
            }
            index_remove_id(&mut self.token_index, entry.record.token.as_str(), doc_id);
            index_remove_id(&mut self.field_index, entry.name.as_str(), doc_id);
            proof {
                let tk = dv.fields[j as int].record.token;
                let nm = dv.fields[j as int].name;
                lemma_prefix_step(dv, j as int);
                assert(dv.tokens().contains(tk));
                assert(dv.names().contains(nm));
                assert(ids_with_token(docs, tk).contains(did));
                assert(ids_with_field(docs, nm).contains(did));
                lemma_prune_token_step(
                    ti_pre,
                    index_of(self.token_index),
                    docs,
                    prefix_tokens(dv, j as int),
                    tk,
                    did,
                );
                lemma_prune_field_step(
                    fi_pre,
                    index_of(self.field_index),
                    docs,
                    prefix_names(dv, j as int),
                    nm,
                    did,
                );
                assert(prefix_tokens(dv, j + 1 as int) == prefix_tokens(dv, j as int).insert(tk));
                assert(prefix_names(dv, j + 1 as int) == prefix_names(dv, j as int).insert(nm));
                assert(index_of(self.token_index).dom().finite()) by {
                    if ti_pre.dom().contains(tk) {
                        if ti_pre[tk].remove(did) == Set::<Seq<char>>::empty() {
                            assert(index_of(self.token_index).dom() =~= ti_pre.dom().remove(tk));
                        } else {
                            assert(index_of(self.token_index).dom() =~= ti_pre.dom().insert(tk));
                        }
                    }
                }
                assert(index_of(self.field_index).dom().finite()) by {
                    if fi_pre.dom().contains(nm) {
                        if fi_pre[nm].remove(did) == Set::<Seq<char>>::empty() {
                            assert(index_of(self.field_index).dom() =~= fi_pre.dom().remove(nm));
                        } else {
                            assert(index_of(self.field_index).dom() =~= fi_pre.dom().insert(nm));
                        }
                    }
                }
            }
            j += 1;
        }
        proof {
            lemma_prefix_all(dv);
            assert forall|t: Seq<char>|
                index_entry_is(
                    index_of(self.token_index),
                    t,
                    ids_with_token(docs.remove(did), t),
                ) by {
                assert(index_entry_is(
                    index_of(self.token_index),
                    t,
                    if prefix_tokens(dv, j as int).contains(t) {
                        ids_with_token(docs, t).remove(did)
                    } else {
                        ids_with_token(docs, t)
                    },
                ));
                if dv.tokens().contains(t) {
                    assert(ids_with_token(docs.remove(did), t) =~= ids_with_token(
                        docs,
                        t,
                    ).remove(did));
                } else {
                    assert(ids_with_token(docs.remove(did), t) =~= ids_with_token(docs, t)) by {
                        assert(!(ids_with_token(docs, t).contains(did)));
                    }
                }
            }
            assert forall|n: Seq<char>|
                index_entry_is(
                    index_of(self.field_index),
                    n,
                    ids_with_field(docs.remove(did), n),
                ) by {
                assert(index_entry_is(
                    index_of(self.field_index),
                    n,
                    if prefix_names(dv, j as int).contains(n) {
                        ids_with_field(docs, n).remove(did)
                    } else {
                        ids_with_field(docs, n)
                    },
                ));
                if dv.names().contains(n) {
                    assert(ids_with_field(docs.remove(did), n) =~= ids_with_field(
                        docs,
                        n,
                    ).remove(did));
                } else {
                    assert(ids_with_field(docs.remove(did), n) =~= ids_with_field(docs, n)) by {
                        assert(!(ids_with_field(docs, n).contains(did)));
                    }
                }
            }
        }
    }

    /// Deletes the document of the given id and cleans both indexes of
    /// it; fails with `NotFound`, and changes nothing, exactly when the
    /// id is absent.
    pub fn remove(&mut self, id: &str) -> (r: Result<DocumentStored, DBError>)
        requires
            old(self).wf(),
        ensures
            final(self).wf(),
            match r {
                Ok(d) => old(self).docs().dom().contains(id@) && d@ == old(self).docs()[id@]
                    && final(self).docs() == old(self).docs().remove(id@),
                Err(e) => !old(self).docs().dom().contains(id@)
                    && final(self).docs() == old(self).docs()
                    && final(self).token_idx() == old(self).token_idx()
                    && final(self).field_idx() == old(self).field_idx()
                    && (e matches DBError::NotFound(s) && s@ == id@),
            },
    {
        let ghost docs0 = self.docs();
        match self.documents.remove(id) {
            Some(doc) => {
                proof {
                    assert(doc@.id == id@);
                }
                self.cleanup_indexes(&doc.id, &doc, Ghost(docs0));
                proof {
                    let docs1 = docs0.remove(id@);
                    assert(self.docs() == docs1);
                    assert(doc.id@ == id@);
                    assert forall|x: Seq<char>| #[trigger]
                        docs1.dom().contains(x) implies docs1[x].wf() && docs1[x].id == x by {
                        assert(docs0.dom().contains(x));
                    }
                    assert(docs1.dom() =~= docs0.dom().remove(id@));
                    assert(self.docs().dom().finite());
                    assert(self.token_idx().dom().finite());
                    assert(self.field_idx().dom().finite());
                    assert forall|t: Seq<char>|
                        index_entry_is(self.token_idx(), t, ids_with_token(self.docs(), t)) by {
                        assert(index_entry_is(
                            index_of(self.token_index),
                            t,
                            ids_with_token(docs0.remove(doc.id@), t),
                        ));
                    }
                    assert forall|n: Seq<char>|
                        index_entry_is(self.field_idx(), n, ids_with_field(self.docs(), n)) by {
                        assert(index_entry_is(
                            index_of(self.field_index),
                            n,
                            ids_with_field(docs0.remove(doc.id@), n),
                        ));
                    }
                    assert(self.wf());
                }
                Ok(doc)
            },
            None => {
                proof {
                    assert(docs0.remove(id@) =~= docs0);
                    assert(self.docs() == docs0);
                }
                Err(DBError::NotFound(id.to_owned()))
            },
        }
    }

    /// Inserts a document, or replaces the one of the same id wholesale.
    /// Index entries of the replaced document are cleaned first, then the
    /// new document's entries inserted, and the replaced document is
    /// returned as a snapshot. Never fails.
    pub fn upsert(&mut self, doc: DocumentStored) -> (r: Result<Option<DocumentStored>, DBError>)
        requires
            old(self).wf(),
            doc@.wf(),
        ensures
            final(self).wf(),
            final(self).docs() == old(self).docs().insert(doc@.id, doc@),
            match r {
                Ok(prev) => match prev {
                    Some(p) => old(self).docs().dom().contains(doc@.id) && p@ == old(
                        self,
                    ).docs()[doc@.id],
                    None => !old(self).docs().dom().contains(doc@.id),
                },
                Err(_) => false,
            },
    {
        let ghost docs0 = self.docs();
        let ghost dv = doc@;
        let ghost did = doc@.id;
        let ghost docs1 = docs0.remove(did);
        let id_str = doc.id.clone();
        let prev_snapshot = self.documents.get(id_str.as_str());
        match &prev_snapshot {
            Some(old_doc) => {
                proof {
                    assert(old_doc@ == docs0[did]);
                    assert(old_doc.id@ == did);
                }
                self.cleanup_indexes(&old_doc.id, old_doc, Ghost(docs0));
                proof {
                    assert forall|t: Seq<char>|
                        #![trigger ids_with_token(docs1, t)]
                        index_entry_is(
                            index_of(self.token_index),
                            t,
                            if prefix_tokens(dv, 0).contains(t) {
                                ids_with_token(docs1, t).insert(did)
                            } else {
                                ids_with_token(docs1, t)
                            },
                        ) by {
                        assert(!prefix_tokens(dv, 0).contains(t));
                        assert(index_entry_is(
                            index_of(self.token_index),
                            t,
                            ids_with_token(docs0.remove(old_doc.id@), t),
                        ));
                    }
                    assert forall|n: Seq<char>|
                        #![trigger ids_with_field(docs1, n)]
                        index_entry_is(
                            index_of(self.field_index),
                            n,
                            if prefix_names(dv, 0).contains(n) {
                                ids_with_field(docs1, n).insert(did)
                            } else {
                                ids_with_field(docs1, n)
                            },
                        ) by {
                        assert(!prefix_names(dv, 0).contains(n));
                        assert(index_entry_is(
                            index_of(self.field_index),
                            n,
                            ids_with_field(docs0.remove(old_doc.id@), n),
                        ));
                    }
                }
            },
            None => {
                proof {
                    assert(docs1 =~= docs0);
                    assert forall|t: Seq<char>|
                        #![trigger ids_with_token(docs1, t)]
                        index_entry_is(
                            index_of(self.token_index),
                            t,
                            if prefix_tokens(dv, 0).contains(t) {
                                ids_with_token(docs1, t).insert(did)
                            } else {
                                ids_with_token(docs1, t)
                            },
                        ) by {
                        assert(!prefix_tokens(dv, 0).contains(t));
                        assert(index_entry_is(self.token_idx(), t, ids_with_token(docs0, t)));
                    }
                    assert forall|n: Seq<char>|
                        #![trigger ids_with_field(docs1, n)]
                        index_entry_is(
                            index_of(self.field_index),
                            n,
                            if prefix_names(dv, 0).contains(n) {
                                ids_with_field(docs1, n).insert(did)
                            } else {
                                ids_with_field(docs1, n)
                            },
                        ) by {
                        assert(!prefix_names(dv, 0).contains(n));
                        assert(index_entry_is(self.field_idx(), n, ids_with_field(docs0, n)));
                    }
                }
            },
        }
        let mut k: usize = 0;
        while k < doc.fields.len()
            invariant
                0 <= k <= doc.fields.len(),
                dv == doc@,
                did == dv.id,
                did == id_str@,
                docs1 == docs0.remove(did),
                !docs1.dom().contains(did),
                doc_map_of(self.documents) == docs0,
                index_of(self.token_index).dom().finite(),
                index_of(self.field_index).dom().finite(),
                forall|t: Seq<char>|
                    #![trigger ids_with_token(docs1, t)]
                    index_entry_is(
                        index_of(self.token_index),
                        t,
                        if prefix_tokens(dv, k as int).contains(t) {
                            ids_with_token(docs1, t).insert(did)
                        } else {
                            ids_with_token(docs1, t)
                        },
                    ),
                forall|n: Seq<char>|
                    #![trigger ids_with_field(docs1, n)]
                    index_entry_is(
                        index_of(self.field_index),
                        n,
                        if prefix_names(dv, k as int).contains(n) {
                            ids_with_field(docs1, n).insert(did)
                        } else {
                            ids_with_field(docs1, n)
                        },
                    ),
            decreases doc.fields.len() - k,
        {
            let ghost ti_pre = index_of(self.token_index);
            let ghost fi_pre = index_of(self.field_index);
            let entry = &doc.fields[k];
            proof {
                assert(entry@ == dv.fields[k as int]);
            }
            index_add_id(&mut self.token_index, entry.record.token.as_str(), &id_str);
            index_add_id(&mut self.field_index, entry.name.as_str(), &id_str);
            proof {
                let tk = dv.fields[k as int].record.token;
                let nm = dv.fields[k as int].name;
                lemma_prefix_step(dv, k as int);
                lemma_add_token_step(
                    ti_pre,
                    index_of(self.token_index),
                    docs1,
                    prefix_tokens(dv, k as int),
                    tk,
                    did,
                );
                lemma_add_field_step(
                    fi_pre,
                    index_of(self.field_index),
                    docs1,
                    prefix_names(dv, k as int),
                    nm,
                    did,
                );
                assert(prefix_tokens(dv, k + 1 as int) == prefix_tokens(dv, k as int).insert(tk));
                assert(prefix_names(dv, k + 1 as int) == prefix_names(dv, k as int).insert(nm));
                assert(index_of(self.token_index).dom() =~= ti_pre.dom().insert(tk));
                assert(index_of(self.field_index).dom() =~= fi_pre.dom().insert(nm));
            }
            k += 1;
        }
        let prev = self.documents.insert(id_str.as_str(), doc);
        proof {
            assert(self.docs() == docs0.insert(did, dv));
            assert(self.docs().dom() =~= docs0.dom().insert(did));
            lemma_prefix_all(dv);
            assert forall|x: Seq<char>| #[trigger]
                self.docs().dom().contains(x) implies self.docs()[x].wf() && self.docs()[x].id
                == x by {
                if x != did {
                    assert(docs0.dom().contains(x));
                }
            }
            assert forall|t: Seq<char>|
                index_entry_is(self.token_idx(), t, ids_with_token(self.docs(), t)) by {
                let s1 = ids_with_token(docs1, t);
                assert(index_entry_is(
                    index_of(self.token_index),
                    t,
                    if prefix_tokens(dv, k as int).contains(t) {
                        ids_with_token(docs1, t).insert(did)
                    } else {
                        ids_with_token(docs1, t)
                    },
                ));
                if dv.tokens().contains(t) {
                    assert(ids_with_token(self.docs(), t) =~= s1.insert(did));
                } else {
                    assert(ids_with_token(self.docs(), t) =~= s1);
                }
            }
            assert forall|n: Seq<char>|
                index_entry_is(self.field_idx(), n, ids_with_field(self.docs(), n)) by {
                let s1 = ids_with_field(docs1, n);
                assert(index_entry_is(
                    index_of(self.field_index),
                    n,
                    if prefix_names(dv, k as int).contains(n) {
                        ids_with_field(docs1, n).insert(did)
                    } else {
                        ids_with_field(docs1, n)
                    },
                ));
                if dv.names().contains(n) {
                    assert(ids_with_field(self.docs(), n) =~= s1.insert(did));
                } else {
                    assert(ids_with_field(self.docs(), n) =~= s1);
                }
            }
        }
        Ok(prev)
    }

    /// Returns a snapshot of every document currently registered under
    /// the token: each result is a stored document that carries the
    /// token, each id appears once, and every registered id is
    /// represented. Returns the empty sequence, never an error, on no
    /// match.
    pub fn query_by_token(&self, token: &str) -> (r: Vec<DocumentStored>)
        requires
            self.wf(),
        ensures
            forall|i: int|
                #![trigger r@[i]]
                0 <= i < r@.len() ==> self.docs().dom().contains(r@[i]@.id)
                    && self.docs()[r@[i]@.id] == r@[i]@ && r@[i]@.tokens().contains(token@),
            forall|i: int, j: int| 0 <= i < j < r@.len() ==> r@[i]@.id != r@[j]@.id,
            forall|x: Seq<char>|
                ids_with_token(self.docs(), token@).contains(x) ==> exists|i: int|
                    0 <= i < r@.len() && #[trigger] r@[i]@.id == x,
    {
        let results: Vec<DocumentStored> = Vec::new();
        let ids = match self.token_index.get_ids(token) {
            Some(v) => v,
            None => {
                proof {
                    assert(index_entry_is(
                        self.token_idx(),
                        token@,
                        ids_with_token(self.docs(), token@),
                    ));
                }
                return results;
            },
        };
        proof {
            assert(index_entry_is(self.token_idx(), token@, ids_with_token(self.docs(), token@)));
        }
        let ghost ids0 = ids@;
        let ghost entry = self.token_idx()[token@];
        let mut results = results;
        let mut i: usize = 0;
        while i < ids.len()
            invariant
                self.wf(),
                ids@ == ids0,
                0 <= i <= ids.len(),
                entry == ids_with_token(self.docs(), token@),
                forall|k: int| 0 <= k < ids0.len() ==> entry.contains(#[trigger] ids0[k]@),
                forall|x: Seq<char>|
                    entry.contains(x) ==> exists|k: int|
                        0 <= k < ids0.len() && #[trigger] ids0[k]@ == x,
                forall|k: int, l: int| 0 <= k < l < ids0.len() ==> ids0[k]@ != ids0[l]@,
                results@.len() == i,
                forall|k: int|
                    #![trigger results@[k]]
                    0 <= k < i ==> results@[k]@ == self.docs()[ids0[k]@] && results@[k]@.id
                        == ids0[k]@,
            decreases ids.len() - i,
        {
            match self.documents.get(ids[i].as_str()) {
                Some(d) => {
                    proof {
                        assert(entry.contains(ids0[i as int]@));
                        assert(self.docs()[ids0[i as int]@].id == ids0[i as int]@);
                    }
                    results.push(d);
                },
                None => {
                    proof {
                        assert(entry.contains(ids0[i as int]@));
                        assert(false);
                    }
                },
            }
            i += 1;
        }
        proof {
            assert forall|x: Seq<char>|
                ids_with_token(self.docs(), token@).contains(x) implies exists|i2: int|
                0 <= i2 < results@.len() && #[trigger] results@[i2]@.id == x by {
                let k = choose|k: int| 0 <= k < ids0.len() && #[trigger] ids0[k]@ == x;
                assert(results@[k]@.id == x);
            }
        }
        results
    }

    /// Law: clearing a store, whatever it held, leaves every count at
    /// zero, and any subsequent lookup fails.
    pub fn clear_leaves_nothing(&mut self, probe: &str) -> (r: (DBStats, bool))
        ensures
            r.0.document_count == 0,
            r.0.token_index_size == 0,
            r.0.field_index_size == 0,
            r.1,
    {
        self.clear();
        proof {
            assert(self.docs().dom() =~= Set::empty());
            assert(self.token_idx().dom() =~= Set::empty());
            assert(self.field_idx().dom() =~= Set::empty());
        }
        let s = self.stats();
        let not_found = match self.get(probe) {
            Ok(_) => false,
            Err(_) => true,
        };
        (s, not_found)
    }

    /// Law: in a well-formed store a token stands in the token index
    /// exactly while some document carries it, and its key maps to
    /// exactly the ids of the documents that do; likewise for a field
    /// name in the field index. Stale keys cannot survive an update or a
    /// removal, and no key maps to an empty set.
    pub proof fn lemma_indexes_exact(self, t: Seq<char>, n: Seq<char>)
        requires
            self.wf(),
        ensures
            self.token_idx().dom().contains(t) <==> ids_with_token(self.docs(), t)
                != Set::<Seq<char>>::empty(),
            self.token_idx().dom().contains(t) ==> self.token_idx()[t] == ids_with_token(
                self.docs(),
                t,
            ),
            self.field_idx().dom().contains(n) <==> ids_with_field(self.docs(), n)
                != Set::<Seq<char>>::empty(),
            self.field_idx().dom().contains(n) ==> self.field_idx()[n] == ids_with_field(
                self.docs(),
                n,
            ),
    {
        assert(index_entry_is(self.token_idx(), t, ids_with_token(self.docs(), t)));
        assert(index_entry_is(self.field_idx(), n, ids_with_field(self.docs(), n)));
    }

    /// Observes the store's sizes: document count and both index key
    /// counts.
    pub fn stats(&self) -> (r: DBStats)
        requires
            self.wf(),
        ensures
            r.document_count == self.docs().dom().len(),
            r.token_index_size == self.token_idx().dom().len(),
            r.field_index_size == self.field_idx().dom().len(),
    {
        DBStats {
            document_count: self.documents.len(),
            token_index_size: self.token_index.len(),
            field_index_size: self.field_index.len(),
        }
    }
}

} // verus!
