//! The shared map behind the store: a lock-free, eventually consistent map
//! from the `evmap` crate, with one write handle and cheaply cloneable read
//! handles.
//!
//! The map's logical content is named by two uninterpreted maps over the
//! write handle: the pending side, which write operations build up, and the
//! published side, which reads observe and which `store_refresh` overwrites
//! with the pending side. The handles are used under a fixed discipline —
//! every write is `update`, `remove` or `purge`, so a present key always
//! carries exactly one value — and the wrapper contracts below state what
//! the crate's sources show for that discipline. A cloned read handle shares
//! the map with the writer, so what it observes is some state published at
//! or before the read: nothing ties its answers to the handle's value.
//!
//! The map's key and value types must come from the standard library (its
//! hashing bound is sealed), so an item is stored as a tagged tuple of plain
//! standard types; `stored_model` reads the tuple back as an item.

use vstd::prelude::*;

use crate::storage::{Item, ItemModel, Metadata, Value, ValueModel};

verus! {

/// The stored form of an item: a tag, the fields of each value shape, and
/// the metadata. Tag 0 is a string (second field); tags 1, 2 and 3 are the
/// list, set and ordered-set shapes (third field); tag 4 is the hash shape
/// (fourth field). The last two fields carry the operation identifier and
/// the expiration instant.
pub type StoredItem = (u8, Vec<u8>, Vec<Vec<u8>>, Vec<(Vec<u8>, Vec<u8>)>, u64, Option<u64>);

/// The item a stored tuple stands for. An out-of-range tag reads as a
/// string, so that the function is total; no such tuple is ever stored.
pub open spec fn stored_model(v: StoredItem) -> ItemModel {
    let value = if v.0 == 1 {
        ValueModel::List(v.2.deep_view())
    } else if v.0 == 2 {
        ValueModel::SetOf(v.2.deep_view())
    } else if v.0 == 3 {
        ValueModel::ZSet(v.2.deep_view())
    } else if v.0 == 4 {
        ValueModel::HashOf(Seq::new(v.3@.len(), |i: int| (v.3@[i].0@, v.3@[i].1@)))
    } else {
        ValueModel::Str(v.1@)
    };
    ItemModel { value, operation_id: v.4, expiration: v.5 }
}

/// Convert an item to its stored form.
pub fn item_to_stored(item: Item) -> (r: StoredItem)
    ensures
        stored_model(r) == item.model(),
{
    let meta = item.meta;
    match item.value {
        Value::Str(b) => (0u8, b, Vec::new(), Vec::new(), meta.operation_id, meta.expiration),
        Value::List(v) => (1u8, Vec::new(), v, Vec::new(), meta.operation_id, meta.expiration),
        Value::SetOf(v) => (2u8, Vec::new(), v, Vec::new(), meta.operation_id, meta.expiration),
        Value::ZSet(v) => (3u8, Vec::new(), v, Vec::new(), meta.operation_id, meta.expiration),
        Value::HashOf(v) => (4u8, Vec::new(), Vec::new(), v, meta.operation_id, meta.expiration),
    }
}

/// Convert a stored form back to an item.
pub fn stored_to_item(v: StoredItem) -> (r: Item)
    ensures
        r.model() == stored_model(v),
{
    let (tag, bytes, seqs, pairs, operation_id, expiration) = v;
    let meta = Metadata { operation_id, expiration };
    let value = if tag == 1 {
        Value::List(seqs)
    } else if tag == 2 {
        Value::SetOf(seqs)
    } else if tag == 3 {
        Value::ZSet(seqs)
    } else if tag == 4 {
        Value::HashOf(pairs)
    } else {
        Value::Str(bytes)
    };
    Item { value, meta }
}

/// Declares `evmap::handles::WriteHandle` so that it can stand in fields
/// and signatures; a value of it is opaque here.
#[verifier::external_type_specification]
#[verifier::external_body]
#[verifier::reject_recursive_types(K)]
#[verifier::reject_recursive_types(V)]
#[verifier::reject_recursive_types(M)]
#[verifier::reject_recursive_types(S)]
pub struct ExWriteHandle<K, V, M, S>(evmap::handles::WriteHandle<K, V, M, S>)
where
    K: core::cmp::Eq + core::hash::Hash + core::clone::Clone,
    S: core::hash::BuildHasher + core::clone::Clone,
    V: core::cmp::Eq + core::hash::Hash,
    M: 'static + core::clone::Clone,
;

/// Declares `evmap::handles::ReadHandle`, likewise opaque.
#[verifier::external_type_specification]
#[verifier::external_body]
#[verifier::reject_recursive_types(K)]
#[verifier::reject_recursive_types(V)]
#[verifier::reject_recursive_types(M)]
#[verifier::reject_recursive_types(S)]
pub struct ExReadHandle<K, V, M, S>(evmap::handles::ReadHandle<K, V, M, S>)
where
    K: core::cmp::Eq + core::hash::Hash,
    S: core::hash::BuildHasher,
;

/// The write side of the store's shared map.
pub type StoreWriteHandle = evmap::handles::WriteHandle<Vec<u8>, StoredItem>;

/// A read handle onto the store's shared map.
pub type StoreReadHandle = evmap::handles::ReadHandle<Vec<u8>, StoredItem>;

/// The empty store content.
pub open spec fn empty_store() -> Map<Seq<u8>, ItemModel> {
    Map::empty()
}

/// The map's pending side: the content that write operations have built up
/// and the next `store_refresh` will publish.
pub uninterp spec fn store_pending(w: StoreWriteHandle) -> Map<Seq<u8>, ItemModel>;

/// The map's published side: the content that reads observe.
pub uninterp spec fn store_published(w: StoreWriteHandle) -> Map<Seq<u8>, ItemModel>;

/// Construct an empty map: its write handle and a first read handle.
///
/// Relies on `evmap::new`, which constructs an empty map, and on
/// `WriteHandle::publish`, which makes the (empty) pending side visible to
/// readers.
#[verifier::external_body]
pub(crate) fn store_new() -> (r: (StoreWriteHandle, StoreReadHandle))
    ensures
        store_pending(r.0) == empty_store(),
        store_published(r.0) == empty_store(),
{
    let (mut writer, reader) = evmap::new();
    writer.publish();
    (writer, reader)
}

/// Another read handle onto the same map.
///
/// Relies on `ReadHandle::clone`, which yields another handle onto the same
/// map.
#[verifier::external_body]
pub(crate) fn snapshot_clone(r: &StoreReadHandle) -> StoreReadHandle {
    r.clone()
}

/// The write handle's own read side, for wiring up subscriptions.
///
/// Relies on `WriteHandle` exposing its read side (it dereferences to a
/// `ReadHandle`) and on `ReadHandle::clone`.
#[verifier::external_body]
pub(crate) fn read_handle_of(w: &StoreWriteHandle) -> StoreReadHandle {
    evmap::handles::ReadHandle::clone(w)
}

/// Whether the published side holds `key`.
///
/// Relies on `ReadHandle::contains_key` (through the write handle's read
/// side), which sees exactly the operations published so far.
#[verifier::external_body]
pub(crate) fn store_contains_key(w: &StoreWriteHandle, key: &Vec<u8>) -> (r: bool)
    ensures
        r == store_published(*w).contains_key(key@),
{
    w.contains_key(key)
}

/// The item under `key` on the published side, if any.
///
/// Relies on `ReadHandle::get_one`, which returns a value under `key` from
/// the published side, and `None` for an absent key; under the update-only
/// write discipline a present key has exactly one value.
#[verifier::external_body]
pub(crate) fn store_get(w: &StoreWriteHandle, key: &Vec<u8>) -> (r: Option<StoredItem>)
    ensures
        match r {
            Some(v) => store_published(*w).contains_key(key@) && stored_model(v)
                == store_published(*w)[key@],
            None => !store_published(*w).contains_key(key@),
        },
{
    w.get_one(key).map(|guard| (*guard).clone())
}

/// Replace the value under `key` on the pending side.
///
/// Relies on `WriteHandle::update`, which replaces the whole value bag of
/// `key` with the one given value, visible after the next publish.
#[verifier::external_body]
pub(crate) fn store_update(w: &mut StoreWriteHandle, key: Vec<u8>, value: StoredItem)
    ensures
        store_pending(*final(w)) == store_pending(*old(w)).insert(key@, stored_model(value)),
        store_published(*final(w)) == store_published(*old(w)),
{
    w.update(key, value);
}

/// Remove `key` from the pending side.
///
/// Relies on `WriteHandle::remove_entry`, which removes the value bag of
/// `key`, visible after the next publish.
#[verifier::external_body]
pub(crate) fn store_remove(w: &mut StoreWriteHandle, key: Vec<u8>)
    ensures
        store_pending(*final(w)) == store_pending(*old(w)).remove(key@),
        store_published(*final(w)) == store_published(*old(w)),
{
    w.remove_entry(key);
}

/// Empty the pending side.
///
/// Relies on `WriteHandle::purge`, which removes all value bags, visible
/// after the next publish.
#[verifier::external_body]
pub(crate) fn store_purge(w: &mut StoreWriteHandle)
    ensures
        store_pending(*final(w)) == empty_store(),
        store_published(*final(w)) == store_published(*old(w)),
{
    w.purge();
}

/// Publish the pending side: reads from now on see it.
///
/// Relies on `WriteHandle::publish`, which exposes all operations appended
/// so far to readers.
#[verifier::external_body]
pub(crate) fn store_refresh(w: &mut StoreWriteHandle)
    ensures
        store_published(*final(w)) == store_pending(*old(w)),
        store_pending(*final(w)) == store_pending(*old(w)),
{
    w.publish();
}

/// The item under `key` in some published state, if any.
///
/// Relies on `ReadHandle::get_one`. The writer may publish concurrently, so
/// the answer reflects some state published at or before the read, and
/// nothing more is promised.
#[verifier::external_body]
pub(crate) fn snapshot_get(r: &StoreReadHandle, key: &Vec<u8>) -> Option<StoredItem> {
    r.get_one(key).map(|guard| (*guard).clone())
}

} // verus!
