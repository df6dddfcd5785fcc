use redis_starter_rust::command::{execute, parse_request, Outcome};
use redis_starter_rust::handshake::{
    handshake_advance, handshake_message, master_address, reply_text, store_replication,
    HandshakeError, HandshakeStage,
};
use redis_starter_rust::config::Config;
use redis_starter_rust::replica::{advance_offset, build_command_text, try_advance_offset, ReplicaLink, Step};
use redis_starter_rust::resp::{
    parse_bulk_string, parse_bulk_string_checked, parse_resp_message, parse_resp_message_checked,
    RespError,
};
use redis_starter_rust::store::Store;
use redis_starter_rust::transfer::{snapshot_transfer, TransferError};

fn strings(list: &[&str]) -> Vec<String> {
    list.iter().map(|s| s.to_string()).collect()
}

fn quiet() -> Outcome {
    Outcome { reply: None, await_answer: false, replicate: None, start_transfer: false }
}

#[test]
fn bulk_strings() {
    let (s, rest, n) = parse_bulk_string(b"$3\r\nfoo\r\nbar").unwrap();
    assert_eq!((s.as_str(), rest, n), ("foo", &b"bar"[..], 9));
    let (s, rest, n) = parse_bulk_string(b"$0\r\n\r\n").unwrap();
    assert_eq!((s.as_str(), rest, n), ("", &b""[..], 6));
    // The empty bulk string counts one byte more than it takes.
    let (s, rest, n) = parse_bulk_string(b"$-1\r\nx").unwrap();
    assert_eq!((s.as_str(), rest, n), ("", &b"x"[..], 6));
}

#[test]
fn bulk_string_errors() {
    assert_eq!(parse_bulk_string(b"$3"), Err(RespError::IncompleteBulkString));
    assert_eq!(parse_bulk_string(b"$x\r\n"), Err(RespError::InvalidNumber));
    assert_eq!(parse_bulk_string(b"$-2\r\n"), Err(RespError::InvalidBulkLength));
    assert_eq!(parse_bulk_string(b"$3\r\nfo"), Err(RespError::IncompleteBulkData));
    assert_eq!(parse_bulk_string(&[b'$', 0xff, b'\r', b'\n']), Err(RespError::InvalidUtf8));
    assert_eq!(parse_bulk_string(&[b'$', b'1', b'\r', b'\n', 0xff, b'\r', b'\n']), Err(RespError::InvalidUtf8));
}

#[test]
fn bulk_string_reads_that_would_overrun() {
    assert!(parse_bulk_string_checked(b"").is_none());
    assert!(parse_bulk_string_checked(b"$-1\r").is_none());
    assert!(parse_bulk_string_checked(b"$-1\r\n").is_some());
}

#[test]
fn resp_arrays() {
    let (items, rest, n) = parse_resp_message(b"*2\r\n$4\r\nECHO\r\n$3\r\nhey\r\nrest").unwrap();
    assert_eq!(items, strings(&["ECHO", "hey"]));
    assert_eq!(rest, b"rest");
    assert_eq!(n, 23);
    let (items, rest, n) = parse_resp_message(b"\r\n\r\n*1\r\n$4\r\nPING\r\n").unwrap();
    assert_eq!(items, strings(&["PING"]));
    assert_eq!(rest, b"");
    assert_eq!(n, 18);
    let (items, _, n) = parse_resp_message(b"*0\r\n").unwrap();
    assert!(items.is_empty());
    assert_eq!(n, 4);
}

#[test]
fn resp_runs_of_bulk_strings() {
    let (items, rest, n) = parse_resp_message(b"$3\r\nfoo\r\n\r\n$3\r\nbar\r\n+x").unwrap();
    assert_eq!(items, strings(&["foo", "bar"]));
    assert_eq!(rest, b"+x");
    assert_eq!(n, 20);
}

#[test]
fn resp_errors() {
    assert_eq!(parse_resp_message(b""), Err(RespError::EmptyBuffer));
    assert_eq!(parse_resp_message(b"\r\n"), Err(RespError::EmptyBuffer));
    assert_eq!(parse_resp_message(b"+OK\r\n"), Err(RespError::UnexpectedFormat));
    assert_eq!(parse_resp_message(b"*2"), Err(RespError::IncompleteArray));
    assert_eq!(parse_resp_message(b"*x\r\n"), Err(RespError::InvalidNumber));
    assert_eq!(parse_resp_message(b"*-1\r\n"), Err(RespError::InvalidNumber));
    assert_eq!(parse_resp_message(b"*1\r\n$3\r\nfo"), Err(RespError::IncompleteBulkData));
}

#[test]
fn resp_reads_that_would_overrun() {
    assert!(parse_resp_message_checked(b"*1\r\n").is_none());
    assert!(parse_resp_message_checked(b"*1\r").is_none());
    assert!(parse_resp_message_checked(b"*2\r\n$1\r\na\r\n").is_none());
    assert!(parse_resp_message_checked(b"*1\r\n$1\r\na\r\n").is_some());
}

#[test]
fn command_text_round_trip() {
    let args = strings(&["SET", "foo", "bar"]);
    let text = build_command_text(&args);
    assert_eq!(text, "*3\r\n$3\r\nSET\r\n$3\r\nfoo\r\n$3\r\nbar\r\n");
    let (items, rest, n) = parse_resp_message(text.as_bytes()).unwrap();
    assert_eq!(items, args);
    assert!(rest.is_empty());
    assert_eq!(n, text.len());
}

#[test]
fn replica_link_skips_snapshot_and_applies_commands() {
    let mut store = Store::new();
    store_replication(&Config { port: "6380".to_string(), replicaof: "localhost 6379".to_string() }, &mut store);
    let mut link = ReplicaLink::new();
    link.receive(b"xy$5\r\nREDIS");
    assert_eq!(link.step(&mut store, 0), Step::SkippedByte);
    assert_eq!(link.step(&mut store, 0), Step::SkippedByte);
    assert_eq!(link.step(&mut store, 0), Step::Wait);
    link.receive(b"\r\n*3\r\n$3\r\nSET\r\n$3\r\nfoo\r\n$3\r\n123\r\n");
    assert_eq!(link.step(&mut store, 0), Step::SnapshotSkipped { length: 5 });
    match link.step(&mut store, 0) {
        Step::Message { outcome, processed } => {
            assert_eq!(outcome, quiet());
            assert_eq!(processed, 31);
            advance_offset(&mut store, processed);
        }
        other => panic!("unexpected step {:?}", other),
    }
    assert!(link.is_drained());
    assert_eq!(store.get(&"foo".to_string()), Some("123".to_string()));
    assert_eq!(store.get(&"master_repl_offset".to_string()), Some("33".to_string()));
    link.receive(b"*3\r\n$8\r\nREPLCONF\r\n$6\r\nGETACK\r\n$1\r\n*\r\n");
    match link.step(&mut store, 0) {
        Step::Message { outcome, processed } => {
            assert_eq!(
                outcome.reply,
                Some("*3\r\n$8\r\nREPLCONF\r\n$3\r\nACK\r\n$2\r\n33\r\n".to_string())
            );
            assert_eq!(processed, 37);
            advance_offset(&mut store, processed);
        }
        other => panic!("unexpected step {:?}", other),
    }
    assert_eq!(store.get(&"master_repl_offset".to_string()), Some("70".to_string()));
}

#[test]
fn replica_link_waits_for_incomplete_messages() {
    let mut store = Store::new();
    let mut link = ReplicaLink::new();
    link.receive(b"$0\r\n\r\n*1\r\n$4\r\nPI");
    assert_eq!(link.step(&mut store, 0), Step::SnapshotSkipped { length: 0 });
    assert_eq!(link.step(&mut store, 0), Step::Wait);
    link.receive(b"NG\r\n");
    match link.step(&mut store, 0) {
        Step::Message { outcome, processed } => {
            assert_eq!(outcome.reply, Some("+PONG\r\n".to_string()));
            assert_eq!(processed, 14);
        }
        other => panic!("unexpected step {:?}", other),
    }
}

#[test]
fn replica_link_aborts_on_bad_snapshot_header() {
    let mut store = Store::new();
    let mut link = ReplicaLink::new();
    link.receive(b"$abc\r\n");
    assert_eq!(link.try_step(&mut store, 0), None);
    assert!(!link.is_drained());
}

#[test]
fn offset_update_fails_on_a_non_number() {
    let mut store = Store::new();
    store.insert("master_repl_offset".to_string(), "many".to_string());
    assert!(!try_advance_offset(&mut store, 3));
    assert_eq!(store.get(&"master_repl_offset".to_string()), Some("many".to_string()));
    store.insert("master_repl_offset".to_string(), "-10".to_string());
    assert!(try_advance_offset(&mut store, 3));
    assert_eq!(store.get(&"master_repl_offset".to_string()), Some("-7".to_string()));
}

#[test]
fn streamed_set_is_carried_out_as_set() {
    let mut store = Store::new();
    let text = build_command_text(&strings(&["set", "k", "v"]));
    let out = execute(&mut store, parse_request(&text), 0);
    assert_eq!(out.reply, Some("+OK\r\n".to_string()));
    assert_eq!(store.get(&"k".to_string()), Some("v".to_string()));
}

#[test]
fn master_address_from_store() {
    let mut store = Store::new();
    assert_eq!(master_address(&store), Err("replicaof configuration is missing"));
    store.insert("replicaof".to_string(), "  localhost\t6379 ".to_string());
    assert_eq!(master_address(&store), Ok("localhost:6379".to_string()));
    store.insert("replicaof".to_string(), "localhost".to_string());
    assert_eq!(master_address(&store), Err("Invalid replicaof configuration"));
    store.insert("replicaof".to_string(), "a b c".to_string());
    assert_eq!(master_address(&store), Err("Invalid replicaof configuration"));
}

#[test]
fn handshake_goes_through_its_stages() {
    assert_eq!(handshake_message(HandshakeStage::Ping), Some("*1\r\n$4\r\nPING\r\n"));
    assert_eq!(
        handshake_message(HandshakeStage::ListeningPort),
        Some("*3\r\n$8\r\nREPLCONF\r\n$14\r\nlistening-port\r\n$4\r\n6380\r\n")
    );
    assert_eq!(
        handshake_message(HandshakeStage::Capabilities),
        Some("*3\r\n$8\r\nREPLCONF\r\n$4\r\ncapa\r\n$6\r\npsync2\r\n")
    );
    assert_eq!(
        handshake_message(HandshakeStage::Psync),
        Some("*3\r\n$5\r\nPSYNC\r\n$1\r\n?\r\n$2\r\n-1\r\n")
    );
    assert_eq!(handshake_message(HandshakeStage::Done), None);
    assert_eq!(handshake_advance(HandshakeStage::Ping, b"+PONG\r\n"), Ok(HandshakeStage::ListeningPort));
    assert_eq!(handshake_advance(HandshakeStage::ListeningPort, b"+OK\r\n"), Ok(HandshakeStage::Capabilities));
    assert_eq!(handshake_advance(HandshakeStage::Capabilities, b"+OK\r\n"), Ok(HandshakeStage::Psync));
    assert_eq!(
        handshake_advance(HandshakeStage::Psync, b"  +FULLRESYNC abc 0\r\n"),
        Ok(HandshakeStage::Done)
    );
}

#[test]
fn handshake_failures() {
    assert_eq!(
        handshake_advance(HandshakeStage::Psync, b"-ERR no\r\n"),
        Err(HandshakeError::UnexpectedPsyncResponse("-ERR no".to_string()))
    );
    assert_eq!(handshake_advance(HandshakeStage::Ping, &[0xff, b'\n']), Err(HandshakeError::InvalidUtf8));
    assert_eq!(reply_text(b" +PONG \r\n"), Some("+PONG".to_string()));
}

#[test]
fn snapshot_transfer_decodes_hex() {
    let t = snapshot_transfer(b"52454449530a").unwrap();
    assert_eq!(t.header, "$6\r\n");
    assert_eq!(t.data, b"REDIS\n".to_vec());
    let t = snapshot_transfer(b"aBcD").unwrap();
    assert_eq!(t.data, vec![0xab, 0xcd]);
    let t = snapshot_transfer(b"").unwrap();
    assert_eq!(t.header, "$0\r\n");
    assert_eq!(snapshot_transfer(b"abc"), Err(TransferError::NotHex));
    assert_eq!(snapshot_transfer(b"zz"), Err(TransferError::NotHex));
}

#[test]
fn replica_link_counts_a_streamed_message_whole() {
    let mut store = Store::new();
    let mut link = ReplicaLink::new();
    link.receive(b"$0\r\n\r\n");
    assert_eq!(link.step(&mut store, 0), Step::SnapshotSkipped { length: 0 });
    let text = build_command_text(&strings(&["SET", "ключ", "значение"]));
    link.receive(text.as_bytes());
    match link.step(&mut store, 0) {
        Step::Message { processed, .. } => assert_eq!(processed, text.len()),
        other => panic!("unexpected step {:?}", other),
    }
    assert!(link.is_drained());
    assert_eq!(store.get(&"ключ".to_string()), Some("значение".to_string()));
}

#[test]
fn commands_before_the_snapshot_are_dropped() {
    let mut store = Store::new();
    let mut link = ReplicaLink::new();
    link.receive(b"*1\r\n$4\r\nPING\r\n");
    for _ in 0..4 {
        assert_eq!(link.step(&mut store, 0), Step::SkippedByte);
    }
    // What is left looks like a snapshot of four bytes, and is skipped as one.
    assert_eq!(link.step(&mut store, 0), Step::SnapshotSkipped { length: 4 });
    assert!(link.is_drained());
    assert_eq!(store.get(&"master_repl_offset".to_string()), None);
}

#[test]
fn stepping_until_drained_ends() {
    let mut store = Store::new();
    let mut link = ReplicaLink::new();
    link.receive(b"+FULLRESYNC x 0\r\n$3\r\nabc\r\n*1\r\n$4\r\nPING\r\n$3\r\nfoo\r\n");
    let mut messages = 0;
    let mut guard = 0;
    while !link.is_drained() {
        guard += 1;
        assert!(guard < 100);
        match link.step(&mut store, 0) {
            Step::Wait => break,
            Step::Message { .. } => messages += 1,
            _ => {}
        }
    }
    assert_eq!(messages, 2);
    assert!(link.is_drained());
}

#[test]
fn bulk_string_followed_by_more_bytes() {
    let (s, rest, n) = parse_bulk_string(b"$5\r\nhello\r\n*1\r\n").unwrap();
    assert_eq!((s.as_str(), rest, n), ("hello", &b"*1\r\n"[..], 5 + 1 + 5));
    let (s, rest, n) = parse_bulk_string("$2\r\n\u{e9}\r\nz".as_bytes()).unwrap();
    assert_eq!((s.as_str(), rest, n), ("\u{e9}", &b"z"[..], 8));
}

#[test]
fn message_followed_by_more_bytes() {
    let first = build_command_text(&strings(&["SET", "k", "v"]));
    let mut buffer = first.clone().into_bytes();
    buffer.extend_from_slice(b"*1\r\n$4\r\nPING\r\n");
    let (items, rest, n) = parse_resp_message(&buffer).unwrap();
    assert_eq!(items, strings(&["SET", "k", "v"]));
    assert_eq!(rest, b"*1\r\n$4\r\nPING\r\n");
    assert_eq!(n, first.len());
}

#[test]
fn message_count_adds_one_for_each_empty_bulk_string() {
    let (items, rest, n) = parse_resp_message(b"*2\r\n$-1\r\n$-1\r\nX").unwrap();
    assert_eq!(items, strings(&["", ""]));
    assert_eq!(rest, b"X");
    assert_eq!(n, 14 + 2);
    // An array element is read from its second byte on, whatever its first.
    let (items, rest, n) = parse_resp_message(b"*1\r\nX-1\r\n").unwrap();
    assert_eq!(items, strings(&[""]));
    assert_eq!(rest, b"");
    assert_eq!(n, 10);
}

#[test]
fn streamed_commands_are_carried_out_in_order() {
    let mut store = Store::new();
    store.insert("replicaof".to_string(), "localhost 6379".to_string());
    let mut link = ReplicaLink::new();
    link.receive(b"$0\r\n\r\n");
    assert_eq!(link.step(&mut store, 0), Step::SnapshotSkipped { length: 0 });
    let mut stream = build_command_text(&strings(&["SET", "k", "1"])).into_bytes();
    stream.extend(build_command_text(&strings(&["SET", "k", "2"])).into_bytes());
    stream.extend(build_command_text(&strings(&["SET", "j", "3"])).into_bytes());
    stream.extend_from_slice(b"*1\r\n$4\r\nPI");
    link.receive(&stream);
    for _ in 0..3 {
        match link.step(&mut store, 0) {
            Step::Message { .. } => {}
            other => panic!("unexpected step {:?}", other),
        }
    }
    assert_eq!(store.get(&"k".to_string()), Some("2".to_string()));
    assert_eq!(store.get(&"j".to_string()), Some("3".to_string()));
    assert_eq!(link.pending_len(), 10);
    assert_eq!(link.step(&mut store, 0), Step::Wait);
}

#[test]
fn getack_answers_the_offset_before_it() {
    let mut store = Store::new();
    store.insert("master_repl_offset".to_string(), "100".to_string());
    let mut link = ReplicaLink::new();
    link.receive(b"$0\r\n\r\n*3\r\n$8\r\nREPLCONF\r\n$6\r\nGETACK\r\n$1\r\n*\r\n");
    assert_eq!(link.step(&mut store, 0), Step::SnapshotSkipped { length: 0 });
    match link.step(&mut store, 0) {
        Step::Message { outcome, processed } => {
            assert_eq!(
                outcome.reply,
                Some("*3\r\n$8\r\nREPLCONF\r\n$3\r\nACK\r\n$3\r\n100\r\n".to_string())
            );
            assert_eq!(processed, 37);
            assert_eq!(store.get(&"master_repl_offset".to_string()), Some("100".to_string()));
            advance_offset(&mut store, processed);
        }
        other => panic!("unexpected step {:?}", other),
    }
    assert_eq!(store.get(&"master_repl_offset".to_string()), Some("137".to_string()));
}

#[test]
fn link_over_a_whole_stream() {
    let mut store = Store::new();
    store.insert("replicaof".to_string(), "localhost 6379".to_string());
    let mut link = ReplicaLink::new();
    let mut stream = b"+FULLRESYNC x 0\r\n$3\r\nRDB\r\n".to_vec();
    stream.extend(build_command_text(&strings(&["SET", "a", "1"])).into_bytes());
    stream.extend(build_command_text(&strings(&["SET", "a", "2"])).into_bytes());
    stream.extend_from_slice(b"*");
    link.receive(&stream);
    for _ in 0..17 {
        assert_eq!(link.step(&mut store, 0), Step::SkippedByte);
        assert_eq!(store.get(&"a".to_string()), None);
    }
    assert_eq!(link.step(&mut store, 0), Step::SnapshotSkipped { length: 3 });
    assert_eq!(store.get(&"a".to_string()), None);
    for expected in ["1", "2"] {
        match link.step(&mut store, 0) {
            Step::Message { .. } => {}
            other => panic!("unexpected step {:?}", other),
        }
        assert_eq!(store.get(&"a".to_string()), Some(expected.to_string()));
    }
    assert_eq!(link.pending_len(), 1);
}
