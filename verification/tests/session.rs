//! End-to-end scenarios through a session: literal wire bytes in, literal
//! wire bytes out, including TTL expiration and fragmented input.

use evredis::codecs::DecodeError;
use evredis::server::Session;

#[test]
fn scenario_ping() {
    let mut session = Session::new();
    let reaction = session.receive(b"*1\r\n$4\r\nPING\r\n", 0);
    assert_eq!(&reaction.output[..], b"+PONG\r\n");
    assert!(reaction.failure.is_none());
}

#[test]
fn scenario_ping_with_message() {
    let mut session = Session::new();
    let reaction = session.receive(b"*2\r\n$4\r\nPING\r\n$5\r\nhello\r\n", 0);
    assert_eq!(&reaction.output[..], b"$5\r\nhello\r\n");
}

#[test]
fn scenario_set_then_get() {
    let mut session = Session::new();
    let reaction = session.receive(b"*3\r\n$3\r\nSET\r\n$3\r\nfoo\r\n$3\r\nbar\r\n", 0);
    assert_eq!(&reaction.output[..], b"+OK\r\n");
    let reaction = session.receive(b"*2\r\n$3\r\nGET\r\n$3\r\nfoo\r\n", 1);
    assert_eq!(&reaction.output[..], b"$3\r\nbar\r\n");
}

#[test]
fn scenario_get_missing_key() {
    let mut session = Session::new();
    let reaction = session.receive(b"*2\r\n$3\r\nGET\r\n$7\r\nmissing\r\n", 0);
    assert_eq!(&reaction.output[..], b"$-1\r\n");
}

#[test]
fn scenario_del_counts_present_keys() {
    let mut session = Session::new();
    session.receive(b"*3\r\n$3\r\nSET\r\n$1\r\na\r\n$1\r\n1\r\n", 0);
    session.receive(b"*3\r\n$3\r\nSET\r\n$1\r\nc\r\n$1\r\n3\r\n", 0);
    let reaction = session.receive(b"*4\r\n$3\r\nDEL\r\n$1\r\na\r\n$1\r\nb\r\n$1\r\nc\r\n", 1);
    assert_eq!(&reaction.output[..], b":2\r\n");
}

#[test]
fn scenario_ttl_expiry_and_supersession() {
    // SET k v EX 1 at time zero: after 1.1 seconds the key reads as absent.
    let mut session = Session::new();
    let reaction = session.receive(
        b"*5\r\n$3\r\nSET\r\n$1\r\nk\r\n$1\r\nv\r\n$2\r\nEX\r\n$1\r\n1\r\n",
        0,
    );
    assert_eq!(&reaction.output[..], b"+OK\r\n");
    assert_eq!(reaction.timers.len(), 1);
    assert_eq!(reaction.timers[0].delay, 1000);
    let reaction = session.receive(b"*2\r\n$3\r\nGET\r\n$1\r\nk\r\n", 1100);
    assert_eq!(&reaction.output[..], b"$-1\r\n");

    // A second SET without TTL before the callback fires supersedes the
    // scheduled expiration: the callback observes a newer operation and is
    // a no-op, so the key keeps its new value indefinitely.
    let mut session = Session::new();
    let reaction = session.receive(
        b"*5\r\n$3\r\nSET\r\n$1\r\nk\r\n$1\r\nv\r\n$2\r\nEX\r\n$1\r\n1\r\n",
        0,
    );
    let timer = reaction.timers[0].clone();
    let reaction = session.receive(b"*3\r\n$3\r\nSET\r\n$1\r\nk\r\n$2\r\nv2\r\n", 500);
    assert_eq!(&reaction.output[..], b"+OK\r\n");
    session.expire(&timer.key, timer.operation_id);
    let reaction = session.receive(b"*2\r\n$3\r\nGET\r\n$1\r\nk\r\n", 3_600_000);
    assert_eq!(&reaction.output[..], b"$2\r\nv2\r\n");
}

#[test]
fn scenario_expiration_callback_removes_current_item() {
    let mut session = Session::new();
    let reaction = session.receive(
        b"*5\r\n$3\r\nSET\r\n$1\r\nk\r\n$1\r\nv\r\n$2\r\nPX\r\n$3\r\n700\r\n",
        0,
    );
    let timer = reaction.timers[0].clone();
    assert_eq!(timer.delay, 700);
    session.expire(&timer.key, timer.operation_id);
    let reaction = session.receive(b"*2\r\n$6\r\nEXISTS\r\n$1\r\nk\r\n", 0);
    assert_eq!(&reaction.output[..], b":0\r\n");
}

#[test]
fn scenario_fragmented_del_decodes_once() {
    let mut session = Session::new();
    session.receive(b"*3\r\n$3\r\nSET\r\n$1\r\na\r\n$1\r\n1\r\n", 0);
    session.receive(b"*3\r\n$3\r\nSET\r\n$1\r\nc\r\n$1\r\n3\r\n", 0);

    let bytes: &[u8] = b"*4\r\n$3\r\nDEL\r\n$1\r\na\r\n$1\r\nb\r\n$1\r\nc\r\n";
    let mut outputs: Vec<Vec<u8>> = Vec::new();
    for i in 0..bytes.len() {
        let reaction = session.receive(&bytes[i..i + 1], 1);
        assert!(reaction.failure.is_none());
        if !reaction.output.is_empty() {
            outputs.push(reaction.output);
        }
    }
    assert_eq!(outputs.len(), 1);
    assert_eq!(&outputs[0][..], b":2\r\n");
}

#[test]
fn session_set_nx_and_xx_guards() {
    let mut session = Session::new();
    // XX on an absent key fails; NX on an absent key succeeds.
    let reaction = session.receive(b"*4\r\n$3\r\nSET\r\n$1\r\nk\r\n$1\r\na\r\n$2\r\nXX\r\n", 0);
    assert_eq!(&reaction.output[..], b"$-1\r\n");
    let reaction = session.receive(b"*4\r\n$3\r\nSET\r\n$1\r\nk\r\n$1\r\na\r\n$2\r\nNX\r\n", 0);
    assert_eq!(&reaction.output[..], b"+OK\r\n");
    // NX on a present key fails; XX on a present key succeeds.
    let reaction = session.receive(b"*4\r\n$3\r\nSET\r\n$1\r\nk\r\n$1\r\nb\r\n$2\r\nNX\r\n", 0);
    assert_eq!(&reaction.output[..], b"$-1\r\n");
    let reaction = session.receive(b"*4\r\n$3\r\nSET\r\n$1\r\nk\r\n$1\r\nb\r\n$2\r\nXX\r\n", 0);
    assert_eq!(&reaction.output[..], b"+OK\r\n");
}

#[test]
fn session_expire_and_persist() {
    let mut session = Session::new();
    session.receive(b"*3\r\n$3\r\nSET\r\n$1\r\nk\r\n$1\r\nv\r\n", 0);
    let reaction = session.receive(b"*3\r\n$6\r\nEXPIRE\r\n$1\r\nk\r\n$1\r\n5\r\n", 0);
    assert_eq!(&reaction.output[..], b":1\r\n");
    assert_eq!(reaction.timers.len(), 1);
    assert_eq!(reaction.timers[0].delay, 5000);
    // Before the deadline the key reads normally; persisting removes the
    // expiration, so a later read still succeeds.
    let reaction = session.receive(b"*2\r\n$7\r\nPERSIST\r\n$1\r\nk\r\n", 100);
    assert_eq!(&reaction.output[..], b":1\r\n");
    let reaction = session.receive(b"*2\r\n$3\r\nGET\r\n$1\r\nk\r\n", 10_000_000);
    assert_eq!(&reaction.output[..], b"$1\r\nv\r\n");
    // EXPIRE and PERSIST on an absent key answer zero.
    let reaction = session.receive(b"*3\r\n$6\r\nEXPIRE\r\n$1\r\nz\r\n$1\r\n5\r\n", 0);
    assert_eq!(&reaction.output[..], b":0\r\n");
    let reaction = session.receive(b"*2\r\n$7\r\nPERSIST\r\n$1\r\nz\r\n", 0);
    assert_eq!(&reaction.output[..], b":0\r\n");
}

#[test]
fn session_flush_commands() {
    let mut session = Session::new();
    session.receive(b"*3\r\n$3\r\nSET\r\n$1\r\na\r\n$1\r\n1\r\n", 0);
    let reaction = session.receive(b"*1\r\n$8\r\nFLUSHALL\r\n", 0);
    assert_eq!(&reaction.output[..], b"+OK\r\n");
    let reaction = session.receive(b"*2\r\n$6\r\nEXISTS\r\n$1\r\na\r\n", 0);
    assert_eq!(&reaction.output[..], b":0\r\n");

    session.receive(b"*3\r\n$3\r\nSET\r\n$1\r\nb\r\n$1\r\n2\r\n", 0);
    let reaction = session.receive(b"*2\r\n$7\r\nFLUSHDB\r\n$5\r\nASYNC\r\n", 0);
    assert_eq!(&reaction.output[..], b"+OK\r\n");
    let reaction = session.receive(b"*2\r\n$6\r\nEXISTS\r\n$1\r\nb\r\n", 0);
    assert_eq!(&reaction.output[..], b":0\r\n");
}

#[test]
fn session_pipelined_commands_answer_in_order() {
    let mut session = Session::new();
    let reaction = session.receive(
        b"*3\r\n$3\r\nSET\r\n$1\r\nx\r\n$1\r\n1\r\n*1\r\n$4\r\nPING\r\n*2\r\n$3\r\nGET\r\n$1\r\nx\r\n",
        0,
    );
    assert_eq!(&reaction.output[..], b"+OK\r\n+PONG\r\n$1\r\n1\r\n");
}

#[test]
fn session_reports_decode_errors_and_keeps_earlier_responses() {
    let mut session = Session::new();
    let reaction = session.receive(b"*1\r\n$4\r\nPING\r\n?boom\r\n", 0);
    assert_eq!(&reaction.output[..], b"+PONG\r\n");
    assert_eq!(reaction.failure, Some(DecodeError::UnexpectedByte(63)));
}

#[test]
fn session_case_insensitive_command_names() {
    let mut session = Session::new();
    let reaction = session.receive(b"*3\r\n$3\r\nsEt\r\n$1\r\nk\r\n$1\r\nv\r\n", 0);
    assert_eq!(&reaction.output[..], b"+OK\r\n");
    let reaction = session.receive(b"*2\r\n$3\r\ngET\r\n$1\r\nk\r\n", 0);
    assert_eq!(&reaction.output[..], b"$1\r\nv\r\n");
}

#[test]
fn session_command_mapping_errors() {
    let mut session = Session::new();
    let reaction = session.receive(b"*1\r\n$3\r\nFOO\r\n", 0);
    assert_eq!(reaction.failure, Some(DecodeError::UnrecognizedCommand));

    let mut session = Session::new();
    let reaction = session.receive(b"*1\r\n$3\r\nGET\r\n", 0);
    assert_eq!(reaction.failure, Some(DecodeError::UnexpectedNumberOfArguments));

    let mut session = Session::new();
    let reaction = session.receive(b"+OK\r\n", 0);
    assert_eq!(reaction.failure, Some(DecodeError::InvalidDataType));

    let mut session = Session::new();
    let reaction = session.receive(b"*2\r\n$3\r\nGET\r\n:12\r\n", 0);
    assert_eq!(reaction.failure, Some(DecodeError::InvalidDataType));
}
