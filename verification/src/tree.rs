//! Decoded tree objects.
//!
//! A [`Tree`] couples the identifier of a tree object with its encoded data.
//! The object store that produces the data, and the decoding of entries, live
//! outside this crate; here the data is held, handed out, and detached from
//! its origin.

use vstd::prelude::*;

verus! {

/// An object identifier: the raw bytes of a hash digest naming an object.
#[derive(Clone, PartialEq, Eq, Debug)]
pub struct ObjectId {
    /// The digest bytes.
    pub bytes: Vec<u8>,
}

/// The kind of an object held in the object store.
#[derive(Clone, Copy, PartialEq, Eq, Debug)]
pub enum Kind {
    Tree,
    Blob,
    Commit,
    Tag,
}

/// An object without any connection to its repository: identifier, kind and
/// encoded data.
#[derive(Clone, PartialEq, Eq, Debug)]
pub struct ObjectDetached {
    pub id: ObjectId,
    pub kind: Kind,
    pub data: Vec<u8>,
}

/// A decoded tree object: its identifier and its encoded entry data.
#[derive(Clone, PartialEq, Eq, Debug)]
pub struct Tree {
    pub id: ObjectId,
    pub data: Vec<u8>,
}

impl ObjectId {
    /// Builds an identifier from digest bytes.
    pub fn from_bytes(bytes: Vec<u8>) -> (r: ObjectId)
        ensures
            r.bytes@ == bytes@,
    {
        ObjectId { bytes }
    }

    /// A copy of this identifier.
    pub fn duplicate(&self) -> (r: ObjectId)
        ensures
            r.bytes@ == self.bytes@,
    {
        ObjectId { bytes: vstd::slice::slice_to_vec(self.bytes.as_slice()) }
    }
}

impl Tree {
    /// Obtain a tree instance by handing in all components that it is made up
    /// of: its identifier and its encoded data.
    pub fn from_data(id: ObjectId, data: Vec<u8>) -> (r: Tree)
        ensures
            r.id == id,
            r.data == data,
    {
        Tree { id, data }
    }

    /// Return this tree's identifier.
    pub fn id(&self) -> (r: ObjectId)
        ensures
            r.bytes@ == self.id.bytes@,
    {
        self.id.duplicate()
    }

    /// Create an owned instance of this object, copying our data in the
    /// process.
    pub fn detached(&self) -> (r: ObjectDetached)
        ensures
            r.id.bytes@ == self.id.bytes@,
            r.kind == Kind::Tree,
            r.data@ == self.data@,
    {
        ObjectDetached {
            id: self.id.duplicate(),
            kind: Kind::Tree,
            data: vstd::slice::slice_to_vec(self.data.as_slice()),
        }
    }

    /// Turn this instance into a standalone object.
    pub fn detach(self) -> (r: ObjectDetached)
        ensures
            r.id == self.id,
            r.kind == Kind::Tree,
            r.data == self.data,
    {
        ObjectDetached { id: self.id, kind: Kind::Tree, data: self.data }
    }

    /// Retrieve this instance's encoded data, leaving its own data empty.
    pub fn take_data(&mut self) -> (r: Vec<u8>)
        ensures
            r@ == old(self).data@,
            final(self).data@ == Seq::<u8>::empty(),
            final(self).id == old(self).id,
    {
        let r = self.data.split_off(0);
        proof {
            assert(self.data@ =~= Seq::<u8>::empty());
            assert(r@ =~= old(self).data@);
        }
        r
    }
}

/// One entry of a tree, as decoded from the tree's data: its mode value,
/// its filename and the identifier of the object it points to.
#[derive(Clone, PartialEq, Eq, Debug)]
pub struct Entry {
    pub mode: u16,
    pub filename: Vec<u8>,
    pub oid: ObjectId,
}

/// Names the entry list that `gix_object::TreeRefIter` parses out of tree
/// data: for each well-formed entry, in order, its mode value, its filename
/// bytes and its object id bytes.
pub uninterp spec fn tree_entries_of(data: Seq<u8>) -> Seq<(u16, Seq<u8>, Seq<u8>)>;

/// Relies on gix_object::TreeRefIter: iterating tree data yields its entries
/// in order, and an entry that fails to decode ends the iteration with an
/// error, which is dropped. The parse depends on the data alone.
#[verifier::external_body]
fn decode_entries(data: &[u8]) -> (r: Vec<(u16, Vec<u8>, Vec<u8>)>)
    ensures
        r.deep_view() == tree_entries_of(data@),
{
    gix_object::TreeRefIter::from_bytes(data, gix_hash::Kind::Sha1)
        .filter_map(Result::ok)
        .map(|e| (e.mode.value(), e.filename.to_vec(), e.oid.as_bytes().to_vec()))
        .collect()
}

/// Byte-for-byte equality of two slices.
fn bytes_eq(a: &[u8], b: &[u8]) -> (r: bool)
    ensures
        r == (a@ == b@),
{
    if a.len() != b.len() {
        proof {
            if a@ == b@ {
                assert(a@.len() == b@.len());
            }
        }
        return false;
    }
    let mut i: usize = 0;
    while i < a.len()
        invariant
            i <= a@.len(),
            a@.len() == b@.len(),
            forall|k: int| 0 <= k < i ==> a@[k] == b@[k],
        decreases a@.len() - i,
    {
        if a[i] != b[i] {
            proof {
                if a@ == b@ {
                    assert(a@[i as int] == b@[i as int]);
                }
            }
            return false;
        }
        i += 1;
    }
    proof {
        assert(a@ =~= b@);
    }
    true
}

/// Whether position `i` holds the first entry named `name`.
pub open spec fn entry_named_at(
    entries: Seq<(u16, Seq<u8>, Seq<u8>)>,
    name: Seq<u8>,
    i: int,
) -> bool {
    &&& 0 <= i < entries.len()
    &&& entries[i].1 == name
    &&& forall|j: int| 0 <= j < i ==> (#[trigger] entries[j]).1 != name
}

/// Whether some entry is named `name`.
pub open spec fn has_entry_named(entries: Seq<(u16, Seq<u8>, Seq<u8>)>, name: Seq<u8>) -> bool {
    exists|i: int| 0 <= i < entries.len() && (#[trigger] entries[i]).1 == name
}

/// Whether `e` is the first entry named `name` in the decoded `data`.
pub open spec fn is_first_entry_named(data: Seq<u8>, name: Seq<u8>, e: Entry) -> bool {
    exists|i: int|
        #![auto]
        entry_named_at(tree_entries_of(data), name, i) && e.mode == tree_entries_of(data)[i].0
            && e.filename@ == tree_entries_of(data)[i].1 && e.oid.bytes@ == tree_entries_of(
            data,
        )[i].2
}

/// Whether `oid` names the object of the first entry named `name` in the
/// decoded `data`.
pub open spec fn is_first_oid_named(data: Seq<u8>, name: Seq<u8>, oid: ObjectId) -> bool {
    exists|i: int|
        #![auto]
        entry_named_at(tree_entries_of(data), name, i) && oid.bytes@ == tree_entries_of(data)[i].2
}

/// Finds the first entry named `name` in decoded tree data.
fn find_in(data: &[u8], name: &[u8]) -> (r: Option<Entry>)
    ensures
        match r {
            Some(e) => is_first_entry_named(data@, name@, e),
            None => !has_entry_named(tree_entries_of(data@), name@),
        },
{
    let entries = decode_entries(data);
    let ghost ev = tree_entries_of(data@);
    let mut i: usize = 0;
    while i < entries.len()
        invariant
            i <= entries@.len(),
            ev == tree_entries_of(data@),
            entries.deep_view() == ev,
            forall|j: int| 0 <= j < i ==> (#[trigger] ev[j]).1 != name@,
        decreases entries@.len() - i,
    {
        let e = &entries[i];
        proof {
            assert(ev[i as int] == entries@[i as int].deep_view());
            assert(entries@[i as int].deep_view() == (
                entries@[i as int].0,
                entries@[i as int].1.deep_view(),
                entries@[i as int].2.deep_view(),
            ));
            assert(entries@[i as int].1.deep_view() =~= entries@[i as int].1@);
            assert(entries@[i as int].2.deep_view() =~= entries@[i as int].2@);
            assert(ev[i as int].0 == entries@[i as int].0);
            assert(ev[i as int].1 == entries@[i as int].1@);
            assert(ev[i as int].2 == entries@[i as int].2@);
        }
        if bytes_eq(e.1.as_slice(), name) {
            let found = Entry {
                mode: e.0,
                filename: vstd::slice::slice_to_vec(e.1.as_slice()),
                oid: ObjectId { bytes: vstd::slice::slice_to_vec(e.2.as_slice()) },
            };
            proof {
                assert(entry_named_at(tree_entries_of(data@), name@, i as int) && found.mode
                    == tree_entries_of(data@)[i as int].0 && found.filename@ == tree_entries_of(
                    data@,
                )[i as int].1 && found.oid.bytes@ == tree_entries_of(data@)[i as int].2);
                assert(is_first_entry_named(data@, name@, found));
            }
            return Some(found);
        }
        i += 1;
    }
    proof {
        assert(ev.len() == entries@.len());
    }
    None
}

/// What one lookup step over a path component decides.
#[derive(Clone, PartialEq, Eq, Debug)]
pub enum Advance {
    /// The final component resolved to this entry.
    Found(Entry),
    /// An inner component resolved: fetch this object and continue inside it.
    Descend(ObjectId),
    /// The component is not present: the lookup fails.
    Missing,
}

/// Decides one step of a path lookup over decoded tree data: the first entry
/// named `name` ends the lookup when `is_last`, sends it into the named
/// subtree otherwise, and a missing name fails it. The caller supplies each
/// fetched object's data in turn.
pub fn lookup_step(data: &[u8], name: &[u8], is_last: bool) -> (r: Advance)
    ensures
        match r {
            Advance::Found(e) => is_last && is_first_entry_named(data@, name@, e),
            Advance::Descend(oid) => !is_last && is_first_oid_named(data@, name@, oid),
            Advance::Missing => !has_entry_named(tree_entries_of(data@), name@),
        },
{
    match find_in(data, name) {
        Some(e) => if is_last {
            Advance::Found(e)
        } else {
            Advance::Descend(e.oid)
        },
        None => Advance::Missing,
    }
}

impl Tree {
    /// Find the entry named `name` by iteration, or return `None` if it
    /// wasn't found.
    pub fn find_entry(&self, name: &[u8]) -> (r: Option<Entry>)
        ensures
            match r {
                Some(e) => is_first_entry_named(self.data@, name@, e),
                None => !has_entry_named(tree_entries_of(self.data@), name@),
            },
    {
        find_in(self.data.as_slice(), name)
    }
}

} // verus!
