//! The key/value storage core: items with metadata, the single-writer /
//! many-reader store, and the read helpers.

use vstd::prelude::*;

use crate::protocol::{Error, Response, ResponseModel};

pub mod reader;
pub mod store;
pub mod writer;

verus! {

/// An error encountered during storage operations.
#[derive(Debug, Clone, Copy, PartialEq, Eq, Structural)]
pub enum StorageError {
    /// The storage actor does not have write permissions.
    NoWriteAccess,
    /// The storage actor does not have read permissions.
    NoReadAccess,
}

/// A storage key: an immutable byte string compared by content.
pub type Key = Vec<u8>;

/// A storage value. Commands only ever write the string shape; the other
/// shapes are reserved and must be carried without corruption.
#[derive(Debug, Clone, PartialEq, Eq)]
pub enum Value {
    /// A byte string.
    Str(Vec<u8>),
    /// An ordered sequence of byte strings.
    List(Vec<Vec<u8>>),
    /// An unordered collection of distinct byte strings.
    SetOf(Vec<Vec<u8>>),
    /// A sorted collection of distinct byte strings.
    ZSet(Vec<Vec<u8>>),
    /// A mapping from byte strings to byte strings.
    HashOf(Vec<(Vec<u8>, Vec<u8>)>),
}

/// The ghost shape of a storage value.
pub enum ValueModel {
    Str(Seq<u8>),
    List(Seq<Seq<u8>>),
    SetOf(Seq<Seq<u8>>),
    ZSet(Seq<Seq<u8>>),
    HashOf(Seq<(Seq<u8>, Seq<u8>)>),
}

impl Value {
    /// The mathematical value of this storage value.
    pub open spec fn model(self) -> ValueModel {
        match self {
            Value::Str(b) => ValueModel::Str(b@),
            Value::List(v) => ValueModel::List(v.deep_view()),
            Value::SetOf(v) => ValueModel::SetOf(v.deep_view()),
            Value::ZSet(v) => ValueModel::ZSet(v.deep_view()),
            Value::HashOf(v) => ValueModel::HashOf(
                Seq::new(v@.len(), |i: int| (v@[i].0@, v@[i].1@)),
            ),
        }
    }
}

/// Metadata carried alongside each stored value: the identifier of the
/// mutation that wrote it, and an optional absolute expiration instant in
/// milliseconds.
#[derive(Debug, Clone, Copy, PartialEq, Eq)]
pub struct Metadata {
    /// The monotonically increasing counter value assigned by the writer.
    pub operation_id: u64,
    /// The absolute instant, in milliseconds, at which the item expires.
    pub expiration: Option<u64>,
}

impl Default for Metadata {
    /// Metadata of an untouched slot: the zero identifier and no expiration.
    fn default() -> (r: Metadata)
        ensures
            r.operation_id == 0,
            r.expiration is None,
    {
        Metadata { operation_id: 0, expiration: None }
    }
}

/// What the map stores per key: a value and its metadata.
#[derive(Debug, Clone, PartialEq, Eq)]
pub struct Item {
    pub value: Value,
    pub meta: Metadata,
}

/// The ghost shape of an item.
pub struct ItemModel {
    pub value: ValueModel,
    pub operation_id: u64,
    pub expiration: Option<u64>,
}

impl Item {
    /// The mathematical value of this item.
    pub open spec fn model(self) -> ItemModel {
        ItemModel {
            value: self.value.model(),
            operation_id: self.meta.operation_id,
            expiration: self.meta.expiration,
        }
    }
}

/// A storage operation: a command on its way to a writer or a reader.
#[derive(Debug)]
pub struct Operation {
    pub command: crate::protocol::Command,
}

impl From<crate::protocol::Command> for Operation {
    /// Wrap a command as an operation.
    fn from(command: crate::protocol::Command) -> (r: Operation) {
        Operation { command }
    }
}

impl vstd::std_specs::convert::FromSpecImpl<crate::protocol::Command> for Operation {
    open spec fn obeys_from_spec() -> bool {
        true
    }

    open spec fn from_spec(command: crate::protocol::Command) -> Operation {
        Operation { command }
    }
}

/// Whether an item has expired at the instant `now`.
pub open spec fn is_expired(item: ItemModel, now: u64) -> bool {
    match item.expiration {
        Some(t) => t <= now,
        None => false,
    }
}

/// The response a read of a slot produces at the instant `now`: nothing for
/// an absent or expired item, the bytes of a string item, and a type error
/// for any other shape.
pub open spec fn spec_read_item(item: Option<ItemModel>, now: u64) -> ResponseModel {
    match item {
        None => ResponseModel::Nil,
        Some(it) => if is_expired(it, now) {
            ResponseModel::Nil
        } else {
            match it.value {
                ValueModel::Str(b) => ResponseModel::Bulk(b),
                _ => ResponseModel::Error(Error::WrongType),
            }
        },
    }
}

/// The metadata of the first item of a value bag.
pub fn get_metadata(values: &[Item]) -> (r: Metadata)
    requires
        values@.len() >= 1,
    ensures
        r == values@[0].meta,
{
    values[0].meta
}

/// Read the first item of a value bag as a bulk response at the instant
/// `now`, as `spec_read_item` describes.
pub fn get_string_as_bulk(values: &[Item], now: u64) -> (r: Response)
    requires
        values@.len() >= 1,
    ensures
        r.model() == spec_read_item(Some(values@[0].model()), now),
{
    let item = &values[0];
    let expired = match item.meta.expiration {
        Some(t) => t <= now,
        None => false,
    };
    if expired {
        Response::Nil
    } else {
        match &item.value {
            Value::Str(data) => Response::Bulk(vstd::slice::slice_to_vec(data.as_slice())),
            _ => Response::Error(Error::WrongType),
        }
    }
}

} // verus!
