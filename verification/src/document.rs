//! Documents with last-write-wins updates, and the store that holds them.

use std::collections::HashMap;

use vstd::prelude::*;
use vstd::std_specs::iter::IteratorSpec;
use vstd::utf8::encode_utf8;

use crate::rpc::DocumentInfo;

verus! {

broadcast use vstd::std_specs::hash::group_hash_axioms;

/// A UTC instant: whole seconds since the Unix epoch and the nanoseconds
/// past them (up to two seconds' worth during a leap second).
#[derive(Debug, Clone, Copy, PartialEq, Eq, Structural, Hash)]
pub struct UtcTime {
    pub secs: i64,
    pub nanos: u32,
}

/// `a` is strictly earlier than `b`.
pub open spec fn utc_lt(a: UtcTime, b: UtcTime) -> bool {
    a.secs < b.secs || (a.secs == b.secs && a.nanos < b.nanos)
}

impl UtcTime {
    /// Whether this instant is strictly earlier than `other`.
    pub fn is_before(&self, other: &UtcTime) -> (b: bool)
        ensures
            b == utc_lt(*self, *other),
    {
        self.secs < other.secs || (self.secs == other.secs && self.nanos < other.nanos)
    }
}

/// A text document with synchronization metadata.
#[derive(Debug, Clone, PartialEq, Eq)]
pub struct Document {
    pub id: u128,
    pub name: String,
    pub content: String,
    pub last_modified: UtcTime,
    pub last_modified_by: Option<u128>,
    pub version: u64,
}

/// The summary of a document.
pub open spec fn info_of(d: Document) -> DocumentInfo {
    DocumentInfo {
        id: d.id,
        name: d.name,
        last_modified: d.last_modified,
        content_length: encode_utf8(d.content@).len() as usize,
    }
}

/// `x` is the summary of some document of `m`.
pub open spec fn summarizes_some(m: Map<u128, Document>, x: DocumentInfo) -> bool {
    exists|d: Document| m.values().contains(d) && x == info_of(d)
}

/// `d` after an update of `content` by `client_id` at `timestamp`: applied
/// unless `timestamp` is earlier than the last change (last write wins).
pub open spec fn updated(d: Document, content: String, client_id: u128, timestamp: UtcTime) -> Document {
    if utc_lt(timestamp, d.last_modified) {
        d
    } else {
        Document {
            content,
            last_modified: timestamp,
            last_modified_by: Some(client_id),
            version: (d.version + 1) as u64,
            ..d
        }
    }
}

/// The update can be recorded without the version counter overflowing.
pub open spec fn can_update(d: Document, timestamp: UtcTime) -> bool {
    !utc_lt(timestamp, d.last_modified) ==> d.version < u64::MAX
}

impl Document {
    /// A new empty document named `name` with identifier `id`, created at
    /// `now`.
    pub fn new(name: String, id: u128, now: UtcTime) -> (d: Self)
        ensures
            d.id == id,
            d.name == name,
            d.content@.len() == 0,
            d.last_modified == now,
            d.last_modified_by is None,
            d.version == 0,
    {
        Self {
            id,
            name,
            content: String::new(),
            last_modified: now,
            last_modified_by: None,
            version: 0,
        }
    }

    /// Replaces the content unless `timestamp` is earlier than the last
    /// change (last write wins); see `updated`.
    pub fn update_content(&mut self, content: String, client_id: u128, timestamp: UtcTime)
        requires
            can_update(*old(self), timestamp),
        ensures
            *final(self) == updated(*old(self), content, client_id, timestamp),
            !utc_lt(timestamp, old(self).last_modified) ==> {
                &&& final(self).content == content
                &&& final(self).last_modified == timestamp
                &&& final(self).last_modified_by == Some(client_id)
                &&& final(self).version == old(self).version + 1
            },
            utc_lt(timestamp, old(self).last_modified) ==> *final(self) == *old(self),
            final(self).id == old(self).id,
            final(self).name == old(self).name,
    {
        if !timestamp.is_before(&self.last_modified) {
            self.content = content;
            self.last_modified = timestamp;
            self.last_modified_by = Some(client_id);
            self.version = self.version + 1;
        }
    }

    /// The document's summary.
    pub fn get_info(&self) -> (i: DocumentInfo)
        ensures
            i == info_of(*self),
            i.id == self.id,
            i.name == self.name,
            i.last_modified == self.last_modified,
            i.content_length == encode_utf8(self.content@).len(),
    {
        DocumentInfo {
            id: self.id,
            name: self.name.clone(),
            last_modified: self.last_modified,
            content_length: self.content.as_str().as_bytes().len(),
        }
    }
}

/// Every document of `m` is stored under its own identifier.
pub open spec fn carries_own_keys(m: Map<u128, Document>) -> bool {
    forall|k: u128| #[trigger] m.contains_key(k) ==> m[k].id == k
}

/// Document store that manages all documents, by identifier.
#[derive(Debug)]
pub struct DocumentStore {
    documents: HashMap<u128, Document>,
}

impl View for DocumentStore {
    type V = Map<u128, Document>;

    closed spec fn view(&self) -> Map<u128, Document> {
        self.documents@
    }
}

impl DocumentStore {
    /// An empty store.
    pub fn new() -> (s: Self)
        ensures
            s@ == Map::<u128, Document>::empty(),
            s@.dom().finite(),
            carries_own_keys(s@),
    {
        Self { documents: HashMap::new() }
    }

    /// Creates a new empty document named `name` with identifier `id`,
    /// created at `now`, and stores it under that identifier.
    pub fn create_document(&mut self, name: String, id: u128, now: UtcTime) -> (d: &Document)
        ensures
            final(self)@ == old(self)@.insert(id, *d),
            old(self)@.dom().finite(),
            final(self)@.dom().finite(),
            final(self)@.dom().len() == if old(self)@.contains_key(id) {
                old(self)@.dom().len()
            } else {
                old(self)@.dom().len() + 1
            },
            carries_own_keys(old(self)@) ==> carries_own_keys(final(self)@),
            d.id == id,
            d.name == name,
            d.last_modified == now,
            d.content@.len() == 0,
            d.last_modified_by is None,
            d.version == 0,
    {
        proof {
            self.lemma_finite();
        }
        let document = Document::new(name, id, now);
        self.documents.insert(id, document);
        self.documents.get(&id).unwrap()
    }

    /// The document stored under `id`, if any.
    pub fn get_document(&self, id: &u128) -> (d: Option<&Document>)
        ensures
            self@.dom().finite(),
            match d {
                Some(doc) => self@.contains_key(*id) && *doc == self@[*id],
                None => !self@.contains_key(*id),
            },
    {
        proof {
            self.lemma_finite();
        }
        self.documents.get(id)
    }

    /// Mutable access to the document stored under `id`, if any.
    pub fn get_document_mut(&mut self, id: &u128) -> (d: Option<&mut Document>)
        ensures
            old(self)@.dom().finite(),
            match d {
                Some(doc) => old(self)@.contains_key(*id) && *doc == old(self)@[*id]
                    && final(self)@ == old(self)@.insert(*id, *final(doc)),
                None => !old(self)@.contains_key(*id) && final(self)@ == old(self)@,
            },
    {
        proof {
            self.lemma_finite();
        }
        match self.documents.entry(*id) {
            std::collections::hash_map::Entry::Occupied(e) => Some(e.into_mut()),
            std::collections::hash_map::Entry::Vacant(_) => None,
        }
    }

    /// Updates the document stored under `id` (last write wins, see
    /// `updated`) and gives it back; `None` when there is no such document.
    pub fn update_document(&mut self, id: &u128, content: String, client_id: u128, timestamp: UtcTime) -> (d: Option<&Document>)
        requires
            old(self)@.contains_key(*id) ==> can_update(old(self)@[*id], timestamp),
        ensures
            match d {
                Some(doc) => old(self)@.contains_key(*id)
                    && *doc == updated(old(self)@[*id], content, client_id, timestamp)
                    && doc.id == old(self)@[*id].id
                    && final(self)@ == old(self)@.insert(*id, *doc),
                None => !old(self)@.contains_key(*id) && final(self)@ == old(self)@,
            },
            old(self)@.dom().finite(),
            final(self)@.dom() == old(self)@.dom(),
            carries_own_keys(old(self)@) ==> carries_own_keys(final(self)@),
    {
        match self.get_document_mut(id) {
            Some(document) => {
                document.update_content(content, client_id, timestamp);
                Some(document)
            },
            None => None,
        }
    }

    /// The summaries of all documents, in the store's iteration order.
    pub fn list_documents(&self) -> (r: Vec<DocumentInfo>)
        ensures
            self@.dom().finite(),
            r@.len() == self@.dom().len(),
            forall|i: int| 0 <= i < r@.len() ==> summarizes_some(self@, #[trigger] r@[i]),
            forall|d: Document|
                #[trigger] self@.values().contains(d) ==> exists|i: int|
                    0 <= i < r@.len() && r@[i] == info_of(d),
    {
        proof {
            self.lemma_finite();
        }
        let ghost all = vstd::std_specs::hash::spec_values_iter(&self.documents).remaining();
        let mut r: Vec<DocumentInfo> = Vec::new();
        for doc in it: self.documents.values()
            invariant
                it.seq() == all,
                r@.len() == it.index(),
                forall|i: int| 0 <= i < r@.len() ==> #[trigger] r@[i] == info_of(*all[i]),
        {
            r.push(doc.get_info());
        }
        proof {
            let vals = all.unref();
            assert(vals.to_set() == self@.values());
            assert forall|i: int| 0 <= i < r@.len() implies summarizes_some(self@, #[trigger] r@[i]) by {
                assert(vals[i] == *all[i]);
                assert(vals.contains(vals[i]));
                assert(vals.to_set().contains(vals[i]));
                assert(self@.values().contains(vals[i]) && r@[i] == info_of(vals[i]));
            }
            assert forall|d: Document| #[trigger] self@.values().contains(d) implies exists|i: int|
                0 <= i < r@.len() && r@[i] == info_of(d) by {
                assert(vals.to_set().contains(d));
                let i = choose|i: int| 0 <= i < vals.len() && vals[i] == d;
                assert(vals[i] == *all[i]);
                assert(r@[i] == info_of(d));
            }
        }
        r
    }

    /// Whether a document is stored under `id`.
    pub fn document_exists(&self, id: &u128) -> (b: bool)
        ensures
            self@.dom().finite(),
            b == self@.contains_key(*id),
    {
        proof {
            self.lemma_finite();
        }
        self.documents.contains_key(id)
    }

    /// A store holds finitely many documents.
    pub proof fn lemma_finite(&self)
        ensures
            self@.dom().finite(),
    {
        vstd::std_specs::hash::axiom_hashmap_view_finite_dom(self.documents);
    }
}

} // verus!
