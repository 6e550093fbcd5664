//! The database writer: the sole mutator of the store. It assigns operation
//! identifiers, applies write commands, publishes a snapshot after every
//! mutation, and schedules TTL expirations keyed by operation identity.

use vstd::prelude::*;

use crate::protocol::{Command, CommandModel, Response, ResponseModel};
use crate::storage::store::{empty_store, item_to_stored, read_handle_of, snapshot_clone,
    store_contains_key, store_get, store_new, store_pending, store_published,
    store_purge, store_refresh, store_remove, store_update, stored_to_item, StoreReadHandle,
    StoreWriteHandle};
use crate::storage::{Item, ItemModel, Metadata, Operation, StorageError, Value, ValueModel};

verus! {

/// A request to run a TTL expiration later: after `delay` milliseconds,
/// remove `key` if its item still carries `operation_id`.
#[derive(Debug, Clone, PartialEq, Eq)]
pub struct TtlSchedule {
    pub key: Vec<u8>,
    pub delay: u64,
    pub operation_id: u64,
}

/// The ghost shape of a TTL schedule.
pub struct TimerModel {
    pub key: Seq<u8>,
    pub delay: u64,
    pub operation_id: u64,
}

impl TtlSchedule {
    /// The mathematical value of this schedule.
    pub open spec fn model(self) -> TimerModel {
        TimerModel { key: self.key@, delay: self.delay, operation_id: self.operation_id }
    }
}

/// What one write command does to the store: the new map, the response, and
/// a TTL expiration to schedule, if any.
pub struct WriteEffect {
    pub map: Map<Seq<u8>, ItemModel>,
    pub response: ResponseModel,
    pub timer: Option<TimerModel>,
}

/// Addition on instants, saturating at the largest representable instant.
pub open spec fn sat_add(a: u64, b: u64) -> u64 {
    if a + b <= u64::MAX {
        (a + b) as u64
    } else {
        u64::MAX
    }
}

/// How many of `keys[i..]` are present in `m`. A key listed twice is counted
/// twice: presence is judged against the snapshot published before the
/// command, which deletion does not update.
pub open spec fn del_count(m: Map<Seq<u8>, ItemModel>, keys: Seq<Seq<u8>>, i: int) -> int
    decreases keys.len() - i,
{
    if i < 0 || i >= keys.len() {
        0
    } else {
        (if m.contains_key(keys[i]) {
            1int
        } else {
            0int
        }) + del_count(m, keys, i + 1)
    }
}

/// `m` with `keys[i..]` removed.
pub open spec fn del_map(m: Map<Seq<u8>, ItemModel>, keys: Seq<Seq<u8>>, i: int) -> Map<
    Seq<u8>,
    ItemModel,
>
    decreases keys.len() - i,
{
    if i < 0 || i >= keys.len() {
        m
    } else {
        del_map(m.remove(keys[i]), keys, i + 1)
    }
}

/// The deletion count lies between zero and the number of keys listed.
pub proof fn lemma_del_count_bounds(m: Map<Seq<u8>, ItemModel>, keys: Seq<Seq<u8>>, i: int)
    ensures
        0 <= del_count(m, keys, i),
        0 <= i <= keys.len() ==> del_count(m, keys, i) <= keys.len() - i,
        del_count(m, keys, i) <= keys.len(),
    decreases keys.len() - i,
{
    if 0 <= i < keys.len() {
        lemma_del_count_bounds(m, keys, i + 1);
    }
}

/// Deletion only removes entries: whatever survives was in the map before,
/// unchanged.
pub proof fn lemma_del_map_sub(m: Map<Seq<u8>, ItemModel>, keys: Seq<Seq<u8>>, i: int)
    ensures
        forall|k: Seq<u8>| #[trigger] del_map(m, keys, i).contains_key(k) ==> m.contains_key(k)
            && del_map(m, keys, i)[k] == m[k],
    decreases keys.len() - i,
{
    if 0 <= i < keys.len() {
        lemma_del_map_sub(m.remove(keys[i]), keys, i + 1);
        assert forall|k: Seq<u8>| #[trigger] del_map(m, keys, i).contains_key(k) implies m
            .contains_key(k) && del_map(m, keys, i)[k] == m[k] by {
            assert(del_map(m, keys, i) == del_map(m.remove(keys[i]), keys, i + 1));
            assert(del_map(m.remove(keys[i]), keys, i + 1).contains_key(k));
            assert(m.remove(keys[i]).contains_key(k));
        }
    }
}

/// What the write command `c` does to the map `m` when it is assigned the
/// operation identifier `op_id` at the instant `now` (milliseconds).
pub open spec fn apply_write(
    m: Map<Seq<u8>, ItemModel>,
    op_id: u64,
    c: CommandModel,
    now: u64,
) -> WriteEffect {
    match c {
        CommandModel::Put(k, v, ttl, cond) => if cond.passes(m.contains_key(k)) {
            let expiration = match ttl {
                Some(d) => Some(sat_add(now, d)),
                None => None,
            };
            WriteEffect {
                map: m.insert(
                    k,
                    ItemModel { value: ValueModel::Str(v), operation_id: op_id, expiration },
                ),
                response: ResponseModel::Okay,
                timer: match ttl {
                    Some(d) => Some(TimerModel { key: k, delay: d, operation_id: op_id }),
                    None => None,
                },
            }
        } else {
            WriteEffect { map: m, response: ResponseModel::Nil, timer: None }
        },
        CommandModel::Del(keys) => WriteEffect {
            map: del_map(m, keys, 0),
            response: ResponseModel::Integer(del_count(m, keys, 0) as i64),
            timer: None,
        },
        CommandModel::Expire(k, d) => if m.contains_key(k) {
            WriteEffect {
                map: m.insert(
                    k,
                    ItemModel {
                        value: m[k].value,
                        operation_id: op_id,
                        expiration: Some(sat_add(now, d)),
                    },
                ),
                response: ResponseModel::Integer(1),
                timer: Some(TimerModel { key: k, delay: d, operation_id: op_id }),
            }
        } else {
            WriteEffect { map: m, response: ResponseModel::Integer(0), timer: None }
        },
        CommandModel::Persist(k) => if m.contains_key(k) {
            WriteEffect {
                map: m.insert(
                    k,
                    ItemModel { value: m[k].value, operation_id: op_id, expiration: None },
                ),
                response: ResponseModel::Integer(1),
                timer: None,
            }
        } else {
            WriteEffect { map: m, response: ResponseModel::Integer(0), timer: None }
        },
        CommandModel::FlushAll(_) => WriteEffect {
            map: Map::empty(),
            response: ResponseModel::Okay,
            timer: None,
        },
        CommandModel::FlushDB(_) => WriteEffect {
            map: Map::empty(),
            response: ResponseModel::Okay,
            timer: None,
        },
        _ => WriteEffect { map: m, response: ResponseModel::Nil, timer: None },
    }
}

/// A map every string item of which is short enough to encode (a machine
/// limit on lengths).
pub open spec fn map_wf(m: Map<Seq<u8>, ItemModel>) -> bool {
    forall|k: Seq<u8>|
        m.contains_key(k) ==> match #[trigger] m[k].value {
            ValueModel::Str(b) => b.len() <= 0x7fff_ffff_ffff_ffff,
            _ => true,
        }
}

/// A write preserves the store invariants: all items stay encodable, and no
/// item carries an identifier newer than the operation's own.
pub proof fn lemma_apply_write_wf(
    m: Map<Seq<u8>, ItemModel>,
    op_id: u64,
    c: CommandModel,
    now: u64,
)
    requires
        map_wf(m),
        forall|k: Seq<u8>| m.contains_key(k) ==> #[trigger] m[k].operation_id < op_id,
        c.wf(),
    ensures
        map_wf(apply_write(m, op_id, c, now).map),
        forall|k: Seq<u8>| #[trigger] apply_write(m, op_id, c, now).map.contains_key(k)
            ==> apply_write(m, op_id, c, now).map[k].operation_id <= op_id,
{
    let e = apply_write(m, op_id, c, now);
    match c {
        CommandModel::Del(keys) => {
            lemma_del_map_sub(m, keys, 0);
        },
        _ => {},
    }
}

/// A well-formed writer's published map is well-formed.
pub proof fn lemma_wf_map_wf(w: Writer)
    requires
        w.wf(),
    ensures
        map_wf(w.map_model()),
{
}

/// The sole mutator of the store: it holds the map's write handle, and a
/// read handle to hand out to subscribers.
pub struct Writer {
    reader: StoreReadHandle,
    writer: StoreWriteHandle,
    operation_id: u64,
}

/// A subscription request for a read handle onto a writer's dataset.
#[derive(Debug)]
pub struct Subscribe;

/// A read handle onto a writer's dataset.
pub struct Subscription(pub StoreReadHandle);

impl Writer {
    /// The published content of the store.
    pub closed spec fn map_model(self) -> Map<Seq<u8>, ItemModel> {
        store_published(self.writer)
    }

    /// The operation counter: the identifier of the last mutation.
    pub closed spec fn op_counter(self) -> u64 {
        self.operation_id
    }

    /// The writer's invariant: everything pending is published (each command
    /// ends with a refresh), every item was written by an operation no newer
    /// than the counter, and every string item is encodable.
    pub closed spec fn wf(self) -> bool {
        &&& store_published(self.writer) == store_pending(self.writer)
        &&& forall|k: Seq<u8>|
            self.map_model().contains_key(k) ==> #[trigger] self.map_model()[k].operation_id
                <= self.operation_id
        &&& map_wf(self.map_model())
    }

    /// Construct a writer for the given (empty) write handle.
    pub fn new(store: StoreWriteHandle) -> (r: Writer)
        requires
            store_published(store) == empty_store(),
            store_pending(store) == empty_store(),
        ensures
            r.wf(),
            r.map_model() == empty_store(),
            r.op_counter() == 0,
    {
        let reader = read_handle_of(&store);
        Writer { reader, writer: store, operation_id: 0 }
    }

    /// A read handle onto this writer's dataset, for wiring up readers.
    pub fn subscribe(&self, _request: Subscribe) -> Subscription {
        Subscription(snapshot_clone(&self.reader))
    }

    /// Whether `key` is present in the published map, expired or not.
    pub fn contains_key(&self, key: &Vec<u8>) -> (r: bool)
        ensures
            r == self.map_model().contains_key(key@),
    {
        store_contains_key(&self.writer, key)
    }

    /// The item under `key` in the published map, if any.
    pub fn get_item(&self, key: &Vec<u8>) -> (r: Option<Item>)
        ensures
            match r {
                Some(item) => self.map_model().contains_key(key@) && item.model()
                    == self.map_model()[key@],
                None => !self.map_model().contains_key(key@),
            },
    {
        match store_get(&self.writer, key) {
            Some(stored) => Some(stored_to_item(stored)),
            None => None,
        }
    }

    /// Apply one operation. A write command is assigned the next operation
    /// identifier, applied as `apply_write` describes, and published; the
    /// returned schedule, if any, asks for a TTL expiration later. A read
    /// command is refused with `NoReadAccess` (it still consumes an
    /// identifier, as every handled operation does).
    pub fn handle(&mut self, operation: Operation, now: u64) -> (r: (
        Result<Response, StorageError>,
        Option<TtlSchedule>,
    ))
        requires
            old(self).wf(),
            old(self).op_counter() < u64::MAX,
            operation.command.model().wf(),
        ensures
            final(self).wf(),
            final(self).op_counter() == old(self).op_counter() + 1,
            ({
                let c = operation.command.model();
                let eff = apply_write(
                    old(self).map_model(),
                    (old(self).op_counter() + 1) as u64,
                    c,
                    now,
                );
                if c.writes() {
                    &&& r.0 matches Ok(resp) && resp.model() == eff.response
                    &&& final(self).map_model() == eff.map
                    &&& match (r.1, eff.timer) {
                        (Some(t), Some(tm)) => t.model() == tm,
                        (None, None) => true,
                        _ => false,
                    }
                } else {
                    &&& r.0 == Err::<Response, StorageError>(StorageError::NoReadAccess)
                    &&& final(self).map_model() == old(self).map_model()
                    &&& r.1 is None
                }
            }),
    {
        let ghost m0 = self.map_model();
        let ghost c0 = operation.command.model();
        self.operation_id = self.operation_id + 1;
        let op_id = self.operation_id;
        let result = match operation.command {
            Command::Put(key, value, ttl, cond) => {
                let exists = store_contains_key(&self.writer, &key);
                let pass = match cond {
                    crate::protocol::Conditional::Always => true,
                    crate::protocol::Conditional::IfExists => exists,
                    crate::protocol::Conditional::IfNotExists => !exists,
                };
                if pass {
                    let expiration = match ttl {
                        Some(d) => Some(sat_add_exec(now, d)),
                        None => None,
                    };
                    let timer = match ttl {
                        Some(d) => Some(
                            TtlSchedule {
                                key: vstd::slice::slice_to_vec(key.as_slice()),
                                delay: d,
                                operation_id: op_id,
                            },
                        ),
                        None => None,
                    };
                    let item = Item {
                        value: Value::Str(value),
                        meta: Metadata { operation_id: op_id, expiration },
                    };
                    let stored = item_to_stored(item);
                    store_update(&mut self.writer, key, stored);
                    store_refresh(&mut self.writer);
                    (Ok(Response::Okay), timer)
                } else {
                    store_refresh(&mut self.writer);
                    (Ok(Response::Nil), None)
                }
            },
            Command::Del(keys) => {
                let ghost keysd = keys.deep_view();
                let n = keys.len();
                proof {
                    assert(keysd.len() == n);
                    lemma_del_count_bounds(m0, keysd, 0);
                }
                let mut updated: i64 = 0;
                let mut i: usize = 0;
                while i < n
                    invariant
                        i <= n,
                        n == keys@.len(),
                        keysd == keys.deep_view(),
                        keysd.len() == n,
                        n <= 0x7fff_ffff_ffff_ffff,
                        store_published(self.writer) == m0,
                        m0 == store_published(self.writer),
                        updated + del_count(m0, keysd, i as int) == del_count(m0, keysd, 0),
                        0 <= updated <= i,
                        del_map(m0, keysd, 0) == del_map(store_pending(self.writer), keysd, i as int),
                        forall|k: Seq<u8>| store_pending(self.writer).contains_key(k)
                            ==> m0.contains_key(k),
                        self.operation_id == op_id,
                    decreases n - i,
                {
                    proof {
                        assert(keysd[i as int] == keys@[i as int]@) by {
                            assert(keys@[i as int].deep_view() =~= keys@[i as int]@);
                        }
                        lemma_del_count_bounds(m0, keysd, i + 1);
                    }
                    let key = &keys[i];
                    if store_contains_key(&self.writer, key) {
                        updated = updated + 1;
                        let owned = vstd::slice::slice_to_vec(key.as_slice());
                        store_remove(&mut self.writer, owned);
                    } else {
                        proof {
                            assert(store_pending(self.writer).remove(keysd[i as int])
                                =~= store_pending(self.writer));
                        }
                    }
                    i = i + 1;
                }
                store_refresh(&mut self.writer);
                (Ok(Response::Integer(updated)), None)
            },
            Command::Expire(key, delay) => {
                match store_get(&self.writer, &key) {
                    Some(stored) => {
                        let item = stored_to_item(stored);
                        let expiration = Some(sat_add_exec(now, delay));
                        let timer = Some(
                            TtlSchedule {
                                key: vstd::slice::slice_to_vec(key.as_slice()),
                                delay,
                                operation_id: op_id,
                            },
                        );
                        let renewed = Item {
                            value: item.value,
                            meta: Metadata { operation_id: op_id, expiration },
                        };
                        let stored2 = item_to_stored(renewed);
                        store_update(&mut self.writer, key, stored2);
                        store_refresh(&mut self.writer);
                        (Ok(Response::Integer(1)), timer)
                    },
                    None => {
                        store_refresh(&mut self.writer);
                        (Ok(Response::Integer(0)), None)
                    },
                }
            },
            Command::Persist(key) => {
                match store_get(&self.writer, &key) {
                    Some(stored) => {
                        let item = stored_to_item(stored);
                        let renewed = Item {
                            value: item.value,
                            meta: Metadata { operation_id: op_id, expiration: None },
                        };
                        let stored2 = item_to_stored(renewed);
                        store_update(&mut self.writer, key, stored2);
                        store_refresh(&mut self.writer);
                        (Ok(Response::Integer(1)), None)
                    },
                    None => {
                        store_refresh(&mut self.writer);
                        (Ok(Response::Integer(0)), None)
                    },
                }
            },
            Command::FlushAll(_) => {
                store_purge(&mut self.writer);
                store_refresh(&mut self.writer);
                (Ok(Response::Okay), None)
            },
            Command::FlushDB(_) => {
                store_purge(&mut self.writer);
                store_refresh(&mut self.writer);
                (Ok(Response::Okay), None)
            },
            _ => (Err(StorageError::NoReadAccess), None),
        };
        proof {
            lemma_apply_write_wf(m0, op_id, c0, now);
        }
        result
    }

    /// Run a scheduled expiration: remove `key` only if the item under it
    /// still carries `operation_id`; a superseded schedule is a no-op. This
    /// is the identity check that lets a new write cancel an old TTL without
    /// explicit unscheduling.
    pub fn expire_if_current(&mut self, key: &Vec<u8>, operation_id: u64)
        requires
            old(self).wf(),
        ensures
            final(self).wf(),
            final(self).op_counter() == old(self).op_counter(),
            ({
                let m = old(self).map_model();
                if m.contains_key(key@) && m[key@].operation_id == operation_id {
                    final(self).map_model() == m.remove(key@)
                } else {
                    final(self).map_model() == m
                }
            }),
    {
        match store_get(&self.writer, key) {
            Some(stored) => {
                let item = stored_to_item(stored);
                if item.meta.operation_id == operation_id {
                    let owned = vstd::slice::slice_to_vec(key.as_slice());
                    store_remove(&mut self.writer, owned);
                    store_refresh(&mut self.writer);
                }
            },
            None => {},
        }
    }
}

impl Default for Writer {
    /// A writer over a fresh, empty store.
    fn default() -> (r: Writer)
        ensures
            r.wf(),
            r.map_model() == empty_store(),
            r.op_counter() == 0,
    {
        let (writer, _reader) = store_new();
        Writer::new(writer)
    }
}

/// Addition on instants, saturating at the largest representable instant.
pub fn sat_add_exec(a: u64, b: u64) -> (r: u64)
    ensures
        r == sat_add(a, b),
{
    if a <= u64::MAX - b {
        a + b
    } else {
        u64::MAX
    }
}

/// Apply a sequence of write commands, one after the other, each under the
/// next operation identifier: the atomic, in-order fold of the sequence.
pub open spec fn apply_seq(
    m: Map<Seq<u8>, ItemModel>,
    op: u64,
    cmds: Seq<CommandModel>,
    now: u64,
) -> (Map<Seq<u8>, ItemModel>, u64)
    decreases cmds.len(),
{
    if cmds.len() == 0 {
        (m, op)
    } else {
        let e = apply_write(m, (op + 1) as u64, cmds[0], now);
        apply_seq(e.map, (op + 1) as u64, cmds.skip(1), now)
    }
}

/// Writer serializability: applying commands one at a time — which is what
/// `Writer::handle` does, by its contract, one command per call — leaves
/// the store exactly as applying the whole sequence atomically in the same
/// order. Splitting the sequence at any point changes nothing.
pub proof fn lemma_writer_serializability(
    m: Map<Seq<u8>, ItemModel>,
    op: u64,
    cmds1: Seq<CommandModel>,
    cmds2: Seq<CommandModel>,
    now: u64,
)
    ensures
        apply_seq(m, op, cmds1 + cmds2, now) == ({
            let (m1, op1) = apply_seq(m, op, cmds1, now);
            apply_seq(m1, op1, cmds2, now)
        }),
    decreases cmds1.len(),
{
    if cmds1.len() == 0 {
        assert(cmds1 + cmds2 =~= cmds2);
    } else {
        let e = apply_write(m, (op + 1) as u64, cmds1[0], now);
        lemma_writer_serializability(e.map, (op + 1) as u64, cmds1.skip(1), cmds2, now);
        assert((cmds1 + cmds2)[0] == cmds1[0]);
        assert((cmds1 + cmds2).skip(1) =~= cmds1.skip(1) + cmds2);
    }
}

/// The counter after a run of commands: one identifier per command.
pub proof fn lemma_apply_seq_counter(
    m: Map<Seq<u8>, ItemModel>,
    op: u64,
    cmds: Seq<CommandModel>,
    now: u64,
)
    requires
        op + cmds.len() <= u64::MAX,
    ensures
        apply_seq(m, op, cmds, now).1 == op + cmds.len(),
    decreases cmds.len(),
{
    if cmds.len() > 0 {
        let e = apply_write(m, (op + 1) as u64, cmds[0], now);
        lemma_apply_seq_counter(e.map, (op + 1) as u64, cmds.skip(1), now);
    }
}

/// Monotonic operation identifiers: the identifier assigned to the mutation
/// at position `i` of a run is the counter after the first `i` commands,
/// plus one — so along any run, an earlier mutation's identifier is
/// strictly below a later one's.
pub proof fn lemma_operation_id_monotone(
    m: Map<Seq<u8>, ItemModel>,
    op: u64,
    cmds: Seq<CommandModel>,
    now: u64,
    i: int,
    j: int,
)
    requires
        0 <= i < j <= cmds.len(),
        op + cmds.len() <= u64::MAX,
    ensures
        apply_seq(m, op, cmds.take(i), now).1 + 1 < apply_seq(m, op, cmds.take(j), now).1 + 1,
{
    lemma_apply_seq_counter(m, op, cmds.take(i), now);
    lemma_apply_seq_counter(m, op, cmds.take(j), now);
}

} // verus!
