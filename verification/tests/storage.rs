//! Tests of the storage actors: the writer's command semantics, the
//! reader's snapshot answers, and the read helpers.

use evredis::protocol::{Command, Conditional, Error, Response, Synchronicity};
use evredis::storage::reader::{snapshot_live, Reader};
use evredis::storage::writer::{Subscribe, Writer};
use evredis::storage::{get_metadata, get_string_as_bulk, Item, Metadata, Operation, StorageError,
    Value};

fn set(key: &[u8], value: &[u8]) -> Operation {
    Operation::from(Command::Put(key.to_vec(), value.to_vec(), None, Conditional::Always))
}

#[test]
fn writer_set_get_roundtrip() {
    let mut writer = Writer::default();
    let (response, timer) = writer.handle(set(b"foo", b"bar"), 0);
    assert_eq!(response, Ok(Response::Okay));
    assert!(timer.is_none());

    let item = writer.get_item(&b"foo".to_vec()).expect("key must be present");
    assert_eq!(item.value, Value::Str(b"bar".to_vec()));
    assert_eq!(item.meta.operation_id, 1);
    assert!(writer.contains_key(&b"foo".to_vec()));
    assert!(!writer.contains_key(&b"nope".to_vec()));
}

#[test]
fn writer_assigns_increasing_operation_ids() {
    let mut writer = Writer::default();
    writer.handle(set(b"a", b"1"), 0);
    writer.handle(set(b"b", b"2"), 0);
    writer.handle(set(b"a", b"3"), 0);
    let a = writer.get_item(&b"a".to_vec()).unwrap();
    let b = writer.get_item(&b"b".to_vec()).unwrap();
    assert_eq!(b.meta.operation_id, 2);
    assert_eq!(a.meta.operation_id, 3);
}

#[test]
fn writer_del_and_flush() {
    let mut writer = Writer::default();
    writer.handle(set(b"a", b"1"), 0);
    writer.handle(set(b"c", b"3"), 0);
    let (response, _) = writer.handle(
        Operation::from(Command::Del(vec![b"a".to_vec(), b"b".to_vec(), b"c".to_vec()])),
        0,
    );
    assert_eq!(response, Ok(Response::Integer(2)));
    assert!(!writer.contains_key(&b"a".to_vec()));

    writer.handle(set(b"d", b"4"), 0);
    let (response, _) = writer.handle(Operation::from(Command::FlushAll(Synchronicity::Sync)), 0);
    assert_eq!(response, Ok(Response::Okay));
    assert!(!writer.contains_key(&b"d".to_vec()));
}

#[test]
fn writer_refuses_read_commands() {
    let mut writer = Writer::default();
    let (response, timer) = writer.handle(Operation::from(Command::Ping(None)), 0);
    assert_eq!(response, Err(StorageError::NoReadAccess));
    assert!(timer.is_none());
}

#[test]
fn writer_expiration_is_keyed_by_operation_identity() {
    let mut writer = Writer::default();
    let (_, timer) = writer.handle(
        Operation::from(Command::Put(b"k".to_vec(), b"v".to_vec(), Some(1000), Conditional::Always)),
        0,
    );
    let timer = timer.expect("a TTL write must schedule an expiration");
    assert_eq!(timer.delay, 1000);

    // A later write supersedes the schedule: firing it is a no-op.
    writer.handle(set(b"k", b"v2"), 500);
    writer.expire_if_current(&timer.key, timer.operation_id);
    assert!(writer.contains_key(&b"k".to_vec()));

    // With no later write the schedule removes the key.
    let (_, timer) = writer.handle(
        Operation::from(Command::Put(b"j".to_vec(), b"w".to_vec(), Some(1000), Conditional::Always)),
        0,
    );
    let timer = timer.expect("a TTL write must schedule an expiration");
    writer.expire_if_current(&timer.key, timer.operation_id);
    assert!(!writer.contains_key(&b"j".to_vec()));
}

#[test]
fn reader_answers_from_snapshot() {
    let mut writer = Writer::default();
    writer.handle(set(b"foo", b"bar"), 0);
    let subscription = writer.subscribe(Subscribe);
    let reader = Reader::new(subscription.0);

    let response = reader.handle(Operation::from(Command::Ping(None)), 0);
    assert_eq!(response, Ok(Response::Pong));
    let response = reader.handle(Operation::from(Command::Ping(Some(b"hi".to_vec()))), 0);
    assert_eq!(response, Ok(Response::Bulk(b"hi".to_vec())));
    let response = reader.handle(Operation::from(Command::Get(b"foo".to_vec())), 0);
    assert_eq!(response, Ok(Response::Bulk(b"bar".to_vec())));
    let response = reader.handle(Operation::from(Command::Get(b"nope".to_vec())), 0);
    assert_eq!(response, Ok(Response::Nil));
    let response = reader.handle(
        Operation::from(Command::Exists(vec![b"foo".to_vec(), b"nope".to_vec()])),
        0,
    );
    assert_eq!(response, Ok(Response::Integer(1)));
}

#[test]
fn reader_exists_ignores_expired_items() {
    let mut writer = Writer::default();
    writer.handle(set(b"k", b"v"), 0);
    writer.handle(Operation::from(Command::Expire(b"k".to_vec(), 5000)), 0);
    let reader = Reader::new(writer.subscribe(Subscribe).0);
    let exists = |now: u64| {
        reader.handle(Operation::from(Command::Exists(vec![b"k".to_vec()])), now)
    };
    assert_eq!(exists(100), Ok(Response::Integer(1)));
    assert_eq!(exists(6000), Ok(Response::Integer(0)));
}

#[test]
fn snapshot_liveness_judges_presence_and_expiry() {
    let lists: Vec<Vec<u8>> = Vec::new();
    let pairs: Vec<(Vec<u8>, Vec<u8>)> = Vec::new();
    let lasting = (0u8, b"v".to_vec(), lists.clone(), pairs.clone(), 1u64, None);
    let expiring = (0u8, b"v".to_vec(), lists, pairs, 1u64, Some(50u64));
    assert!(snapshot_live(Some(lasting), 100));
    assert!(snapshot_live(Some(expiring.clone()), 49));
    assert!(!snapshot_live(Some(expiring), 50));
    assert!(!snapshot_live(None, 0));
}

#[test]
fn reader_refuses_writes_and_unsubscribed_reads() {
    let reader = Reader::default();
    let response = reader.handle(Operation::from(Command::Ping(None)), 0);
    assert_eq!(response, Err(StorageError::NoReadAccess));

    let mut writer = Writer::default();
    let reader = Reader::new(writer.subscribe(Subscribe).0);
    let response = reader.handle(set(b"k", b"v"), 0);
    assert_eq!(response, Err(StorageError::NoWriteAccess));
}

#[test]
fn read_helpers_inspect_items() {
    let plain = Item {
        value: Value::Str(b"data".to_vec()),
        meta: Metadata { operation_id: 7, expiration: None },
    };
    assert_eq!(get_metadata(&[plain.clone()]), Metadata { operation_id: 7, expiration: None });
    assert_eq!(get_string_as_bulk(&[plain], 100), Response::Bulk(b"data".to_vec()));

    let expired = Item {
        value: Value::Str(b"data".to_vec()),
        meta: Metadata { operation_id: 7, expiration: Some(50) },
    };
    assert_eq!(get_string_as_bulk(&[expired], 100), Response::Nil);

    let wrong_shape = Item {
        value: Value::List(vec![b"a".to_vec()]),
        meta: Metadata { operation_id: 7, expiration: None },
    };
    assert_eq!(get_string_as_bulk(&[wrong_shape], 100), Response::Error(Error::WrongType));
}

#[test]
fn conditional_when_runs_only_when_admitted() {
    assert_eq!(Conditional::Always.when(false, || 1), Some(1));
    assert_eq!(Conditional::IfExists.when(true, || 2), Some(2));
    assert_eq!(Conditional::IfExists.when(false, || 2), None);
    assert_eq!(Conditional::IfNotExists.when(false, || 3), Some(3));
    assert_eq!(Conditional::IfNotExists.when(true, || 3), None);
}
