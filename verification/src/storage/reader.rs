//! The database reader: answers read commands from a published snapshot,
//! without blocking the writer.
//!
//! A reader's snapshot handle observes some state the writer published at or
//! before the moment of each lookup, so the contracts here pin the shape of
//! every answer — which command maps to which response, for every possible
//! snapshot content — while the content itself is existentially quantified.

use vstd::prelude::*;

use crate::protocol::{Command, CommandModel, Response, ResponseModel};
use crate::storage::store::{snapshot_get, stored_model, stored_to_item, StoredItem,
    StoreReadHandle};
use crate::storage::{is_expired, spec_read_item, ItemModel, Operation, StorageError};

verus! {

/// How many entries of `flags[i..]` are set.
pub open spec fn count_trues(flags: Seq<bool>, i: int) -> int
    decreases flags.len() - i,
{
    if i < 0 || i >= flags.len() {
        0
    } else {
        (if flags[i] {
            1int
        } else {
            0int
        }) + count_trues(flags, i + 1)
    }
}

/// The count of set flags lies between zero and the number of flags.
pub proof fn lemma_count_trues_bounds(flags: Seq<bool>, i: int)
    ensures
        0 <= count_trues(flags, i),
        0 <= i <= flags.len() ==> count_trues(flags, i) <= flags.len() - i,
        count_trues(flags, i) <= flags.len(),
    decreases flags.len() - i,
{
    if 0 <= i < flags.len() {
        lemma_count_trues_bounds(flags, i + 1);
    }
}

/// Count the set entries of a flag vector.
pub fn respond_exists(flags: &Vec<bool>) -> (r: i64)
    requires
        flags@.len() <= 0x7fff_ffff_ffff_ffff,
    ensures
        r as int == count_trues(flags@, 0),
{
    let n = flags.len();
    proof {
        lemma_count_trues_bounds(flags@, 0);
    }
    let mut count: i64 = 0;
    let mut i: usize = 0;
    while i < n
        invariant
            i <= n,
            n == flags@.len(),
            n <= 0x7fff_ffff_ffff_ffff,
            0 <= count <= i,
            count + count_trues(flags@, i as int) == count_trues(flags@, 0),
        decreases n - i,
    {
        proof {
            lemma_count_trues_bounds(flags@, i + 1);
        }
        if flags[i] {
            count = count + 1;
        }
        i = i + 1;
    }
    count
}

/// Whether a looked-up slot holds a live item at the instant `now`:
/// present, and not expired.
pub fn snapshot_live(stored: Option<StoredItem>, now: u64) -> (live: bool)
    ensures
        live == (stored matches Some(s) && !is_expired(stored_model(s), now)),
{
    match stored {
        Some(s) => {
            let item = stored_to_item(s);
            match item.meta.expiration {
                Some(t) => t > now,
                None => true,
            }
        },
        None => false,
    }
}

/// An actor that wraps a database reader handle. Until it has completed its
/// subscription to a writer, it holds no handle and refuses every operation.
pub struct Reader {
    store: Option<StoreReadHandle>,
}

impl Reader {
    /// Whether the reader has completed its subscription.
    pub closed spec fn has_access(self) -> bool {
        self.store is Some
    }

    /// Construct a reader for the given handle.
    pub fn new(store: StoreReadHandle) -> (r: Reader)
        ensures
            r.has_access(),
    {
        Reader { store: Some(store) }
    }

    /// Answer one read operation from the snapshot, at the instant `now`
    /// (milliseconds). An unsubscribed reader refuses with `NoReadAccess`; a
    /// write command is refused with `NoWriteAccess`. A lookup answer
    /// reflects some published snapshot, so the item a `GET` saw and the
    /// presence flags an `EXISTS` counted are existentially quantified.
    pub fn handle(&self, operation: Operation, now: u64) -> (r: Result<Response, StorageError>)
        requires
            operation.command.model().wf(),
        ensures
            ({
                let c = operation.command.model();
                if !self.has_access() {
                    r == Err::<Response, StorageError>(StorageError::NoReadAccess)
                } else {
                    match c {
                        CommandModel::Ping(None) => r matches Ok(resp) && resp.model()
                            == ResponseModel::Pong,
                        CommandModel::Ping(Some(msg)) => r matches Ok(resp) && resp.model()
                            == ResponseModel::Bulk(msg),
                        CommandModel::Get(k) => exists|item: Option<ItemModel>|
                            r matches Ok(resp) && resp.model() == #[trigger] spec_read_item(
                                item,
                                now,
                            ),
                        CommandModel::Exists(ks) => exists|flags: Seq<bool>|
                            flags.len() == ks.len() && (r matches Ok(resp) && resp.model()
                                == ResponseModel::Integer(#[trigger] count_trues(flags, 0) as i64)),
                        _ => r == Err::<Response, StorageError>(StorageError::NoWriteAccess),
                    }
                }
            }),
    {
        let store = match &self.store {
            Some(store) => store,
            None => {
                return Err(StorageError::NoReadAccess);
            },
        };
        match operation.command {
            Command::Ping(None) => Ok(Response::Pong),
            Command::Ping(Some(msg)) => Ok(Response::Bulk(msg)),
            Command::Get(key) => {
                match snapshot_get(store, &key) {
                    None => {
                        proof {
                            let ghost witness: Option<ItemModel> = None;
                            assert(Response::Nil.model() == spec_read_item(witness, now));
                        }
                        Ok(Response::Nil)
                    },
                    Some(stored) => {
                        let item = stored_to_item(stored);
                        let items = vec![item];
                        let resp = crate::storage::get_string_as_bulk(items.as_slice(), now);
                        proof {
                            let ghost witness: Option<ItemModel> = Some(items@[0].model());
                            assert(resp.model() == spec_read_item(witness, now));
                        }
                        Ok(resp)
                    },
                }
            },
            Command::Exists(keys) => {
                let ghost keysd = keys.deep_view();
                let n = keys.len();
                proof {
                    assert(keysd.len() == n);
                }
                let mut flags: Vec<bool> = Vec::new();
                let mut i: usize = 0;
                while i < n
                    invariant
                        i <= n,
                        n == keys@.len(),
                        flags@.len() == i,
                    decreases n - i,
                {
                    let live = snapshot_live(snapshot_get(store, &keys[i]), now);
                    flags.push(live);
                    i = i + 1;
                }
                let count = respond_exists(&flags);
                proof {
                    let ghost witness = flags@;
                    assert(witness.len() == keysd.len());
                }
                Ok(Response::Integer(count))
            },
            Command::Put(_, _, _, _) => Err(StorageError::NoWriteAccess),
            Command::Del(_) => Err(StorageError::NoWriteAccess),
            Command::Expire(_, _) => Err(StorageError::NoWriteAccess),
            Command::Persist(_) => Err(StorageError::NoWriteAccess),
            Command::FlushAll(_) => Err(StorageError::NoWriteAccess),
            Command::FlushDB(_) => Err(StorageError::NoWriteAccess),
        }
    }
}

impl Default for Reader {
    /// A reader that has not yet subscribed: it refuses every operation.
    fn default() -> (r: Reader)
        ensures
            !r.has_access(),
    {
        Reader { store: None }
    }
}

} // verus!
