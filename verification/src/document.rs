//! Documents whose field values are stored encrypted.
//!
//! A document maps field names to materialized field records: the
//! authenticated ciphertext, the nonce it was sealed under, the
//! deterministic search token, and a masked preview for display.

use vstd::prelude::*;

verus! {

/// One encrypted field: ciphertext, nonce, search token, masked preview.
#[derive(Debug)]
pub struct FieldMaterialized {
    pub cipher: Vec<u8>,
    pub nonce: Vec<u8>,
    pub token: String,
    pub masked: String,
}

/// Mathematical image of a `FieldMaterialized`.
#[verifier::ext_equal]
pub struct FieldRecordView {
    pub cipher: Seq<u8>,
    pub nonce: Seq<u8>,
    pub token: Seq<char>,
    pub masked: Seq<char>,
}

impl View for FieldMaterialized {
    type V = FieldRecordView;

    open spec fn view(&self) -> FieldRecordView {
        FieldRecordView {
            cipher: self.cipher@,
            nonce: self.nonce@,
            token: self.token@,
            masked: self.masked@,
        }
    }
}

impl Clone for FieldMaterialized {
    fn clone(&self) -> (r: Self)
        ensures
            r@ == self@,
    {
        FieldMaterialized {
            cipher: self.cipher.clone(),
            nonce: self.nonce.clone(),
            token: self.token.clone(),
            masked: self.masked.clone(),
        }
    }
}

/// A named field of a document.
#[derive(Debug)]
pub struct FieldEntry {
    pub name: String,
    pub record: FieldMaterialized,
}

/// Mathematical image of a `FieldEntry`.
#[verifier::ext_equal]
pub struct FieldEntryView {
    pub name: Seq<char>,
    pub record: FieldRecordView,
}

impl View for FieldEntry {
    type V = FieldEntryView;

    open spec fn view(&self) -> FieldEntryView {
        FieldEntryView { name: self.name@, record: self.record@ }
    }
}

impl Clone for FieldEntry {
    fn clone(&self) -> (r: Self)
        ensures
            r@ == self@,
    {
        FieldEntry { name: self.name.clone(), record: self.record.clone() }
    }
}

/// A stored document: an id and its fields, field names unique.
#[derive(Debug)]
pub struct DocumentStored {
    pub id: String,
    pub fields: Vec<FieldEntry>,
}

/// Mathematical image of a `DocumentStored`.
#[verifier::ext_equal]
pub struct DocView {
    pub id: Seq<char>,
    pub fields: Seq<FieldEntryView>,
}

impl View for DocumentStored {
    type V = DocView;

    open spec fn view(&self) -> DocView {
        DocView {
            id: self.id@,
            fields: Seq::new(self.fields@.len(), |i: int| self.fields@[i]@),
        }
    }
}

impl Clone for DocumentStored {
    fn clone(&self) -> (r: Self)
        ensures
            r@ == self@,
    {
        let mut fields: Vec<FieldEntry> = Vec::new();
        let mut i: usize = 0;
        while i < self.fields.len()
            invariant
                0 <= i <= self.fields.len(),
                fields@.len() == i,
                forall|k: int| 0 <= k < i ==> #[trigger] fields@[k]@ == self.fields@[k]@,
            decreases self.fields.len() - i,
        {
            fields.push(self.fields[i].clone());
            i += 1;
        }
        let r = DocumentStored { id: self.id.clone(), fields };
        proof {
            assert(r@.fields =~= self@.fields);
            assert(r@ =~= self@);
        }
        r
    }
}

impl DocView {
    /// Field names are pairwise distinct: the field list is a map.
    pub open spec fn wf(self) -> bool {
        forall|i: int, j: int|
            0 <= i < j < self.fields.len() ==> self.fields[i].name != self.fields[j].name
    }

    /// The set of search tokens the document's fields carry.
    pub open spec fn tokens(self) -> Set<Seq<char>> {
        Set::new(
            |t: Seq<char>|
                exists|i: int|
                    0 <= i < self.fields.len() && #[trigger] self.fields[i].record.token == t,
        )
    }

    /// The set of field names the document carries.
    pub open spec fn names(self) -> Set<Seq<char>> {
        Set::new(
            |n: Seq<char>|
                exists|i: int| 0 <= i < self.fields.len() && #[trigger] self.fields[i].name == n,
        )
    }

    /// Whether the document has a field of the given name.
    pub open spec fn has_field(self, name: Seq<char>) -> bool {
        self.names().contains(name)
    }

    /// The position of the field of the given name, where one exists.
    pub open spec fn field_index_of(self, name: Seq<char>) -> int {
        choose|i: int| 0 <= i < self.fields.len() && #[trigger] self.fields[i].name == name
    }

    /// The record stored under the given name, `None` when absent.
    pub open spec fn field_of(self, name: Seq<char>) -> Option<FieldRecordView> {
        if self.has_field(name) {
            Some(self.fields[self.field_index_of(name)].record)
        } else {
            None
        }
    }

    /// The document after one field is written: the entry of the same
    /// name is replaced in place, or a fresh entry is appended.
    pub open spec fn with_field(self, name: Seq<char>, record: FieldRecordView) -> DocView {
        if self.has_field(name) {
            DocView {
                id: self.id,
                fields: Seq::new(
                    self.fields.len(),
                    |i: int|
                        if self.fields[i].name == name {
                            FieldEntryView { name: name, record: record }
                        } else {
                            self.fields[i]
                        },
                ),
            }
        } else {
            DocView {
                id: self.id,
                fields: self.fields.push(FieldEntryView { name: name, record: record }),
            }
        }
    }
}

impl DocumentStored {
    /// A fresh document with the given id and no fields.
    pub fn new(id: String) -> (r: DocumentStored)
        ensures
            r@.id == id@,
            r@.fields.len() == 0,
            r@.wf(),
    {
        DocumentStored { id, fields: Vec::new() }
    }

    /// Looks a field up by name; `None` exactly when no field has it.
    pub fn get_field(&self, name: &String) -> (r: Option<&FieldMaterialized>)
        requires
            self@.wf(),
        ensures
            match r {
                Some(rec) => self@.field_of(name@) == Some(rec@),
                None => self@.field_of(name@) is None,
            },
    {
        let mut i: usize = 0;
        while i < self.fields.len()
            invariant
                self@.wf(),
                0 <= i <= self.fields.len(),
                forall|k: int| 0 <= k < i ==> #[trigger] self@.fields[k].name != name@,
            decreases self.fields.len() - i,
        {
            if self.fields[i].name == *name {
                proof {
                    assert(self@.fields[i as int].name == name@);
                    assert(self@.has_field(name@));
                    let j = self@.field_index_of(name@);
                    assert(0 <= j < self@.fields.len() && self@.fields[j].name == name@);
                    assert(j == i as int);
                }
                return Some(&self.fields[i].record);
            }
            i += 1;
        }
        proof {
            assert forall|k: int| 0 <= k < self@.fields.len() implies self@.fields[k].name
                != name@ by {}
            assert(!self@.names().contains(name@));
        }
        None
    }

    /// Writes one field: replaces the entry of the same name, or
    /// appends a fresh one; every other entry is kept unchanged.
    pub fn set_field(&mut self, name: String, record: FieldMaterialized)
        requires
            old(self)@.wf(),
        ensures
            final(self)@ == old(self)@.with_field(name@, record@),
            final(self)@.wf(),
    {
        let ghost pre = self@;
        let ghost nv = name@;
        let ghost rv = record@;
        let mut i: usize = 0;
        while i < self.fields.len()
            invariant
                self@ == pre,
                pre == old(self)@,
                pre.wf(),
                nv == name@,
                rv == record@,
                0 <= i <= self.fields.len(),
                forall|k: int| 0 <= k < i ==> #[trigger] pre.fields[k].name != nv,
            decreases self.fields.len() - i,
        {
            if self.fields[i].name == name {
                proof {
                    assert(pre.fields[i as int].name == nv);
                    assert(pre.has_field(nv));
                }
                self.fields.set(i, FieldEntry { name: name.clone(), record: record.clone() });
                proof {
                    let post = self@;
                    assert forall|k: int| 0 <= k < post.fields.len() implies post.fields[k] == (
                    if pre.fields[k].name == nv {
                        FieldEntryView { name: nv, record: rv }
                    } else {
                        pre.fields[k]
                    }) by {
                        if k != i as int {
                            assert(post.fields[k] == pre.fields[k]);
                            if k < i as int {
                                assert(pre.fields[k].name != nv);
                            } else {
                                assert(pre.fields[i as int].name == nv);
                                assert(pre.fields[k].name != nv);
                            }
                        } else {
                            assert(post.fields[k] =~= FieldEntryView { name: nv, record: rv });
                        }
                    }
                    assert(post.fields =~= pre.with_field(nv, rv).fields);
                    assert(post =~= pre.with_field(nv, rv));
                    assert forall|a: int, b: int| 0 <= a < b < post.fields.len() implies
                        post.fields[a].name != post.fields[b].name by {
                        assert(pre.fields[a].name != pre.fields[b].name);
                    }
                }
                return ;
            }
            i += 1;
        }
        proof {
            assert forall|k: int| 0 <= k < pre.fields.len() implies pre.fields[k].name != nv by {}
            assert(!pre.names().contains(nv));
        }
        self.fields.push(FieldEntry { name: name.clone(), record: record.clone() });
        proof {
            let post = self@;
            assert(post.fields =~= pre.fields.push(FieldEntryView { name: nv, record: rv }));
            assert(post =~= pre.with_field(nv, rv));
            let l = pre.fields.len() as int;
            assert forall|a: int, b: int| 0 <= a < b < post.fields.len() implies post.fields[a].name
                != post.fields[b].name by {
                if b == l {
                    assert(pre.fields[a].name != nv);
                } else {
                    assert(pre.fields[a].name != pre.fields[b].name);
                }
            }
        }
    }
}

} // verus!
