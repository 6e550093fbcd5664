//! Tests of the command mapping and the command/response round trips.

use evredis::codecs::resp2::Value;
use evredis::codecs::DecodeError;
use evredis::protocol::{Command, Conditional, Error, Response, Synchronicity};

fn decode_one(bytes: &[u8]) -> Result<Option<Command>, DecodeError> {
    let mut buffer = bytes.to_vec();
    Value::decode_from(&mut buffer)
}

#[test]
fn command_mapping_covers_every_command() {
    assert_eq!(decode_one(b"*1\r\n$4\r\nPING\r\n"), Ok(Some(Command::Ping(None))));
    assert_eq!(
        decode_one(b"*2\r\n$4\r\nping\r\n$2\r\nhi\r\n"),
        Ok(Some(Command::Ping(Some(b"hi".to_vec()))))
    );
    assert_eq!(
        decode_one(b"*2\r\n$3\r\nGET\r\n$1\r\nk\r\n"),
        Ok(Some(Command::Get(b"k".to_vec())))
    );
    assert_eq!(
        decode_one(b"*3\r\n$3\r\nSET\r\n$1\r\nk\r\n$1\r\nv\r\n"),
        Ok(Some(Command::Put(b"k".to_vec(), b"v".to_vec(), None, Conditional::Always)))
    );
    assert_eq!(
        decode_one(b"*6\r\n$3\r\nSET\r\n$1\r\nk\r\n$1\r\nv\r\n$2\r\nEX\r\n$1\r\n2\r\n$2\r\nNX\r\n"),
        Ok(Some(Command::Put(b"k".to_vec(), b"v".to_vec(), Some(2000), Conditional::IfNotExists)))
    );
    assert_eq!(
        decode_one(b"*5\r\n$3\r\nSET\r\n$1\r\nk\r\n$1\r\nv\r\n$2\r\nPX\r\n$3\r\n250\r\n"),
        Ok(Some(Command::Put(b"k".to_vec(), b"v".to_vec(), Some(250), Conditional::Always)))
    );
    assert_eq!(
        decode_one(b"*3\r\n$3\r\nDEL\r\n$1\r\na\r\n$1\r\nb\r\n"),
        Ok(Some(Command::Del(vec![b"a".to_vec(), b"b".to_vec()])))
    );
    assert_eq!(
        decode_one(b"*2\r\n$6\r\nEXISTS\r\n$1\r\na\r\n"),
        Ok(Some(Command::Exists(vec![b"a".to_vec()])))
    );
    assert_eq!(
        decode_one(b"*3\r\n$6\r\nEXPIRE\r\n$1\r\nk\r\n$2\r\n10\r\n"),
        Ok(Some(Command::Expire(b"k".to_vec(), 10_000)))
    );
    assert_eq!(
        decode_one(b"*2\r\n$7\r\nPERSIST\r\n$1\r\nk\r\n"),
        Ok(Some(Command::Persist(b"k".to_vec())))
    );
    assert_eq!(
        decode_one(b"*1\r\n$8\r\nFLUSHALL\r\n"),
        Ok(Some(Command::FlushAll(Synchronicity::Sync)))
    );
    assert_eq!(
        decode_one(b"*2\r\n$8\r\nFLUSHALL\r\n$5\r\nASYNC\r\n"),
        Ok(Some(Command::FlushAll(Synchronicity::Async)))
    );
    assert_eq!(
        decode_one(b"*2\r\n$7\r\nFLUSHDB\r\n$4\r\nSYNC\r\n"),
        Ok(Some(Command::FlushDB(Synchronicity::Sync)))
    );
}

#[test]
fn command_mapping_rejects_bad_shapes() {
    assert_eq!(decode_one(b"*1\r\n$3\r\nFOO\r\n"), Err(DecodeError::UnrecognizedCommand));
    assert_eq!(decode_one(b"*0\r\n"), Err(DecodeError::UnrecognizedCommand));
    assert_eq!(decode_one(b"*1\r\n$3\r\nGET\r\n"), Err(DecodeError::UnexpectedNumberOfArguments));
    assert_eq!(
        decode_one(b"*3\r\n$4\r\nPING\r\n$1\r\na\r\n$1\r\nb\r\n"),
        Err(DecodeError::UnexpectedNumberOfArguments)
    );
    assert_eq!(decode_one(b"+OK\r\n"), Err(DecodeError::InvalidDataType));
    assert_eq!(decode_one(b"*2\r\n$3\r\nGET\r\n:12\r\n"), Err(DecodeError::InvalidDataType));
    assert_eq!(
        decode_one(b"*4\r\n$3\r\nSET\r\n$1\r\nk\r\n$1\r\nv\r\n$2\r\nZZ\r\n"),
        Err(DecodeError::UnrecognizedCommand)
    );
    assert_eq!(
        decode_one(b"*4\r\n$3\r\nSET\r\n$1\r\nk\r\n$1\r\nv\r\n$2\r\nEX\r\n"),
        Err(DecodeError::UnexpectedNumberOfArguments)
    );
    assert_eq!(
        decode_one(b"*5\r\n$3\r\nSET\r\n$1\r\nk\r\n$1\r\nv\r\n$2\r\nEX\r\n$2\r\n-1\r\n"),
        Err(DecodeError::InvalidInteger)
    );
    assert_eq!(
        decode_one(b"*2\r\n$8\r\nFLUSHALL\r\n$3\r\nNOW\r\n"),
        Err(DecodeError::UnrecognizedCommand)
    );
    assert_eq!(decode_one(b""), Ok(None));
    assert_eq!(decode_one(b"*2\r\n$4\r\nPING\r\n$3\r\nhi"), Ok(None));
}

#[test]
fn commands_round_trip_through_the_wire() {
    let commands = vec![
        Command::Ping(None),
        Command::Ping(Some(b"payload".to_vec())),
        Command::Get(b"key".to_vec()),
        Command::Put(b"key".to_vec(), b"value".to_vec(), None, Conditional::Always),
        Command::Put(b"key".to_vec(), b"value".to_vec(), Some(1234), Conditional::IfExists),
        Command::Put(b"key".to_vec(), b"value".to_vec(), Some(250), Conditional::IfNotExists),
        Command::Del(vec![b"a".to_vec(), b"b".to_vec()]),
        Command::Exists(vec![b"a".to_vec()]),
        Command::Expire(b"key".to_vec(), 5000),
        Command::Persist(b"key".to_vec()),
        Command::FlushAll(Synchronicity::Sync),
        Command::FlushAll(Synchronicity::Async),
        Command::FlushDB(Synchronicity::Sync),
        Command::FlushDB(Synchronicity::Async),
    ];
    for command in commands {
        let mut wire: Vec<u8> = Vec::new();
        Value::encode_command(&command, &mut wire).expect("encoding cannot fail");
        let mut buffer = wire.clone();
        let decoded = Value::decode_from(&mut buffer).expect("canonical form must decode");
        assert_eq!(decoded, Some(command));
        assert!(buffer.is_empty());
    }
}

#[test]
fn responses_encode_bit_exactly() {
    let cases: Vec<(Response, &[u8])> = vec![
        (Response::Okay, b"+OK\r\n"),
        (Response::Pong, b"+PONG\r\n"),
        (Response::Nil, b"$-1\r\n"),
        (Response::Integer(-42), b":-42\r\n"),
        (Response::Bulk(b"abc".to_vec()), b"$3\r\nabc\r\n"),
        (
            Response::Error(Error::WrongType),
            b"-WRONGTYPE Operation against a key holding the wrong kind of value\r\n",
        ),
    ];
    for (response, wire) in cases {
        let mut buffer: Vec<u8> = Vec::new();
        Value::encode_to(response, &mut buffer).expect("encoding cannot fail");
        assert_eq!(&buffer[..], wire);
    }
}

#[test]
fn classification_of_commands() {
    assert!(!Command::Ping(None).writes());
    assert!(!Command::Get(b"k".to_vec()).writes());
    assert!(!Command::Exists(vec![b"k".to_vec()]).writes());
    assert!(Command::Put(b"k".to_vec(), b"v".to_vec(), None, Conditional::Always).writes());
    assert!(Command::Del(vec![b"k".to_vec()]).writes());
    assert!(Command::Expire(b"k".to_vec(), 1).writes());
    assert!(Command::Persist(b"k".to_vec()).writes());
    assert!(Command::FlushAll(Synchronicity::Sync).writes());
    assert!(Command::Get(b"k".to_vec()).reads());

    assert!(Command::FlushAll(Synchronicity::Async).is_async());
    assert!(Command::FlushDB(Synchronicity::Async).is_async());
    assert!(!Command::FlushAll(Synchronicity::Sync).is_async());
    assert!(!Command::Ping(None).is_async());
}
