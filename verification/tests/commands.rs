use redis_starter_rust::command::{
    build_set_message, bulk_reply, classify_request, execute, execution_aborts, parse_request,
    stored_is_readable, store_is_replica, wait_arguments, wait_reply, Command, Incoming, Outcome,
    WaitTally,
};
use redis_starter_rust::lines::Lines;
use redis_starter_rust::store::Store;

fn run(store: &mut Store, request: &str, now: u64) -> Outcome {
    let cmd = parse_request(request);
    assert!(!execution_aborts(store, &cmd, now));
    execute(store, cmd, now)
}

fn reply(text: &str) -> Outcome {
    Outcome { reply: Some(text.to_string()), await_answer: false, replicate: None, start_transfer: false }
}

fn quiet() -> Outcome {
    Outcome { reply: None, await_answer: false, replicate: None, start_transfer: false }
}

fn replica_store() -> Store {
    let mut store = Store::new();
    store.insert("replicaof".to_string(), "localhost 6379".to_string());
    store
}

#[test]
fn parse_request_reads_commands() {
    assert_eq!(parse_request("*1\r\n$4\r\nPING\r\n"), Command::Ping);
    assert_eq!(
        parse_request("*2\r\n$4\r\nECHO\r\n$3\r\nhey\r\n"),
        Command::Echo { message: "hey".to_string() }
    );
    assert_eq!(
        parse_request("*3\r\n$3\r\nSET\r\n$3\r\nfoo\r\n$3\r\nbar\r\n"),
        Command::SetValue { key: "foo".to_string(), value: "bar".to_string(), expiry: None }
    );
    assert_eq!(
        parse_request("*5\r\n$3\r\nset\r\n$3\r\nfoo\r\n$3\r\nbar\r\n$2\r\npx\r\n$3\r\n100\r\n"),
        Command::SetValue {
            key: "foo".to_string(),
            value: "bar".to_string(),
            expiry: Some("100".to_string())
        }
    );
    assert_eq!(
        parse_request("*2\r\n$3\r\nget\r\n$3\r\nfoo\r\n"),
        Command::Get { key: "foo".to_string() }
    );
    assert_eq!(parse_request("*2\r\n$4\r\nINFO\r\n$11\r\nreplication\r\n"), Command::Info);
    assert_eq!(
        parse_request("*3\r\n$8\r\nREPLCONF\r\n$6\r\nGETACK\r\n$1\r\n*\r\n"),
        Command::Replconf { key: "GETACK".to_string(), value: "*".to_string() }
    );
    assert_eq!(parse_request("*3\r\n$5\r\nPSYNC\r\n$1\r\n?\r\n$2\r\n-1\r\n"), Command::Psync);
}

#[test]
fn parse_request_invalid_and_unknown() {
    assert_eq!(parse_request("*1\r\n$4\r\nFOOO\r\n"), Command::Invalid);
    assert_eq!(parse_request("*-1\r\n$4\r\nPING\r\n"), Command::Invalid);
    assert_eq!(parse_request("*x\r\n$4\r\nPING\r\n"), Command::Invalid);
    assert_eq!(parse_request("*"), Command::Invalid);
}

#[test]
fn parse_request_set_with_two_elements_ignores_options() {
    assert_eq!(
        parse_request("*2\r\n$3\r\nSET\r\n$1\r\nk\r\n$1\r\nv\r\n$2\r\nPX\r\n$1\r\n5\r\n"),
        Command::SetValue { key: "k".to_string(), value: "v".to_string(), expiry: None }
    );
}

#[test]
fn parse_request_missing_elements_are_empty() {
    assert_eq!(parse_request("*1\r\n$3\r\nGET\r\n"), Command::Get { key: String::new() });
}

#[test]
fn ping_and_echo() {
    let mut store = Store::new();
    assert_eq!(run(&mut store, "*1\r\n$4\r\nPING\r\n", 0), reply("+PONG\r\n"));
    assert_eq!(
        run(&mut store, "*2\r\n$4\r\nECHO\r\n$3\r\nhey\r\n", 0),
        Outcome {
            reply: Some("$3\r\nhey\r\n".to_string()),
            await_answer: true,
            replicate: None,
            start_transfer: false
        }
    );
}

#[test]
fn echo_counts_bytes_not_characters() {
    assert_eq!(bulk_reply("é"), "$2\r\né\r\n");
}

#[test]
fn set_then_get_on_a_master() {
    let mut store = Store::new();
    let out = run(&mut store, "*3\r\n$3\r\nSET\r\n$3\r\nfoo\r\n$3\r\nbar\r\n", 0);
    assert_eq!(
        out,
        Outcome {
            reply: Some("+OK\r\n".to_string()),
            await_answer: false,
            replicate: Some("*3\r\n$3\r\nSET\r\n$3\r\nfoo\r\n$3\r\nbar\r\n".to_string()),
            start_transfer: false
        }
    );
    assert_eq!(run(&mut store, "*2\r\n$3\r\nGET\r\n$3\r\nfoo\r\n", 5), reply("$3\r\nbar\r\n"));
}

#[test]
fn set_overwrites() {
    let mut store = Store::new();
    run(&mut store, "*3\r\n$3\r\nSET\r\n$1\r\nk\r\n$1\r\na\r\n", 0);
    run(&mut store, "*3\r\n$3\r\nSET\r\n$1\r\nk\r\n$2\r\nbb\r\n", 0);
    assert_eq!(run(&mut store, "*2\r\n$3\r\nGET\r\n$1\r\nk\r\n", 0), reply("$2\r\nbb\r\n"));
}

#[test]
fn get_missing_key_is_nil() {
    let mut store = Store::new();
    assert_eq!(run(&mut store, "*2\r\n$3\r\nGET\r\n$4\r\nnone\r\n", 0), reply("$-1\r\n"));
}

#[test]
fn set_with_expiry_expires() {
    let mut store = Store::new();
    let out = run(
        &mut store,
        "*5\r\n$3\r\nSET\r\n$3\r\nfoo\r\n$3\r\nbar\r\n$2\r\npx\r\n$3\r\n100\r\n",
        1000,
    );
    assert_eq!(out.reply, Some("+OK\r\n".to_string()));
    assert_eq!(
        out.replicate,
        Some("*3\r\n$3\r\nSET\r\n$3\r\nfoo\r\n$3\r\nbar\r\n".to_string())
    );
    assert_eq!(store.get(&"foo".to_string()), Some("bar\r\n1100".to_string()));
    assert_eq!(run(&mut store, "*2\r\n$3\r\nGET\r\n$3\r\nfoo\r\n", 1100), reply("$3\r\nbar\r\n"));
    assert_eq!(run(&mut store, "*2\r\n$3\r\nGET\r\n$3\r\nfoo\r\n", 1101), reply("$-1\r\n"));
}

#[test]
fn set_with_bad_expiry_does_nothing() {
    let mut store = Store::new();
    let out = run(
        &mut store,
        "*5\r\n$3\r\nSET\r\n$3\r\nfoo\r\n$3\r\nbar\r\n$2\r\nPX\r\n$3\r\nabc\r\n",
        0,
    );
    assert_eq!(out, quiet());
    assert_eq!(store.get(&"foo".to_string()), None);
}

#[test]
fn set_with_other_option_is_plain() {
    let mut store = Store::new();
    run(&mut store, "*5\r\n$3\r\nSET\r\n$1\r\nk\r\n$1\r\nv\r\n$2\r\nEX\r\n$1\r\n1\r\n", 0);
    assert_eq!(store.get(&"k".to_string()), Some("v".to_string()));
}

#[test]
fn replica_stores_but_stays_quiet_on_set() {
    let mut store = replica_store();
    assert!(store_is_replica(&store));
    let out = run(&mut store, "*3\r\n$3\r\nSET\r\n$3\r\nfoo\r\n$3\r\nbar\r\n", 0);
    assert_eq!(out, quiet());
    assert_eq!(store.get(&"foo".to_string()), Some("bar".to_string()));
}

#[test]
fn info_reports_the_role() {
    let mut store = Store::new();
    let master = run(&mut store, "*2\r\n$4\r\nINFO\r\n$11\r\nreplication\r\n", 0).reply.unwrap();
    assert_eq!(
        master,
        "$89\r\nrole:master\r\nmaster_replid:8371b4fb1155b71f4a04d3e1bc3e18c4a990aeeb\r\nmaster_repl_offset:0\r\n"
    );
    let mut store = replica_store();
    let slave = run(&mut store, "*1\r\n$4\r\nINFO\r\n", 0).reply.unwrap();
    assert_eq!(
        slave,
        "$88\r\nrole:slave\r\nmaster_replid:8371b4fb1155b71f4a04d3e1bc3e18c4a990aeeb\r\nmaster_repl_offset:0\r\n"
    );
}

#[test]
fn info_reply_is_a_well_formed_bulk_string() {
    for role_store in [Store::new(), replica_store()] {
        let mut store = role_store;
        let text = run(&mut store, "*1\r\n$4\r\nINFO\r\n", 0).reply.unwrap();
        let header_end = text.find("\r\n").unwrap();
        let declared: usize = text[1..header_end].parse().unwrap();
        let body = &text[header_end + 2..];
        assert_eq!(body.len(), declared + 2);
        assert!(body.ends_with("\r\n"));
    }
}

#[test]
fn replconf_replies() {
    let mut store = Store::new();
    assert_eq!(
        run(&mut store, "*3\r\n$8\r\nREPLCONF\r\n$14\r\nlistening-port\r\n$4\r\n6380\r\n", 0),
        reply("+OK\r\n")
    );
    assert_eq!(
        run(&mut store, "*3\r\n$8\r\nREPLCONF\r\n$6\r\nGETACK\r\n$1\r\n*\r\n", 0),
        reply("*3\r\n$8\r\nREPLCONF\r\n$3\r\nACK\r\n$1\r\n0\r\n")
    );
    store.insert("master_repl_offset".to_string(), "154".to_string());
    assert_eq!(
        run(&mut store, "*3\r\n$8\r\nREPLCONF\r\n$6\r\nGETACK\r\n$1\r\n*\r\n", 0),
        reply("*3\r\n$8\r\nREPLCONF\r\n$3\r\nACK\r\n$3\r\n154\r\n")
    );
    // GETACK is matched case-sensitively.
    assert_eq!(
        run(&mut store, "*3\r\n$8\r\nREPLCONF\r\n$6\r\ngetack\r\n$1\r\n*\r\n", 0),
        reply("+OK\r\n")
    );
}

#[test]
fn psync_starts_a_transfer() {
    let mut store = Store::new();
    assert_eq!(
        run(&mut store, "*3\r\n$5\r\nPSYNC\r\n$1\r\n?\r\n$2\r\n-1\r\n", 0),
        Outcome {
            reply: Some("+FULLRESYNC 8371b4fb1155b71f4a04d3e1bc3e18c4a990aeeb 0\r\n".to_string()),
            await_answer: false,
            replicate: None,
            start_transfer: true
        }
    );
}

#[test]
fn unknown_commands_get_nothing() {
    let mut store = Store::new();
    assert_eq!(run(&mut store, "*1\r\n$4\r\nFOOO\r\n", 0), quiet());
}

#[test]
fn aborting_commands_are_detected() {
    let mut store = Store::new();
    store.insert("k".to_string(), "v\r\nsoon".to_string());
    let get = parse_request("*2\r\n$3\r\nGET\r\n$1\r\nk\r\n");
    assert!(execution_aborts(&store, &get, 0));
    assert!(!stored_is_readable(&"v\r\nsoon".to_string()));
    assert!(stored_is_readable(&"v\r\n12".to_string()));
    assert!(stored_is_readable(&"v".to_string()));
    let set = parse_request("*5\r\n$3\r\nSET\r\n$1\r\nk\r\n$1\r\nv\r\n$2\r\nPX\r\n$2\r\n10\r\n");
    assert!(execution_aborts(&store, &set, u64::MAX - 5));
    assert!(!execution_aborts(&store, &set, u64::MAX - 10));
}

#[test]
fn classify_request_sorts_what_arrives() {
    assert_eq!(classify_request(b"*1\r\n$4\r\nPING\r\n"), Incoming::Request(Command::Ping));
    assert_eq!(classify_request(b"PING\r\n"), Incoming::Unhandled);
    assert_eq!(classify_request(b""), Incoming::Unhandled);
    assert_eq!(classify_request(&[0xff, 0x2a]), Incoming::NotUtf8);
}

#[test]
fn set_message_counts_bytes() {
    assert_eq!(build_set_message("ké", "v"), "*3\r\n$3\r\nSET\r\n$3\r\nké\r\n$1\r\nv\r\n");
}

#[test]
fn wait_arguments_and_reply() {
    let mut lines = Lines::new("$1\r\n2\r\n$3\r\n500\r\n");
    assert_eq!(wait_arguments(&mut lines), (2, 500));
    let mut lines = Lines::new("$1\r\nx\r\n");
    assert_eq!(wait_arguments(&mut lines), (0, 0));
    assert_eq!(wait_reply(3), ":3\r\n");
}

#[test]
fn only_set_changes_the_store() {
    let mut store = Store::new();
    store.insert("k".to_string(), "v".to_string());
    for request in [
        "*1\r\n$4\r\nPING\r\n",
        "*2\r\n$4\r\nECHO\r\n$1\r\nk\r\n",
        "*2\r\n$3\r\nGET\r\n$1\r\nk\r\n",
        "*1\r\n$4\r\nINFO\r\n",
        "*3\r\n$8\r\nREPLCONF\r\n$6\r\nGETACK\r\n$1\r\n*\r\n",
        "*3\r\n$5\r\nPSYNC\r\n$1\r\n?\r\n$2\r\n-1\r\n",
        "*1\r\n$3\r\nDEL\r\n",
    ] {
        run(&mut store, request, 0);
        assert_eq!(store.get(&"k".to_string()), Some("v".to_string()));
        assert_eq!(store.get(&"master_repl_offset".to_string()), None);
    }
}

#[test]
fn wait_tally_counts_up_to_what_it_waits_for() {
    let mut tally = WaitTally::new(2);
    assert!(tally.listening());
    assert_eq!(tally.acks(), 0);
    tally.record(true);
    assert!(tally.listening());
    tally.record(true);
    assert!(!tally.listening());
    assert_eq!(tally.acks(), 2);
    tally.record(true);
    assert_eq!(tally.acks(), 2);
    assert_eq!(wait_reply(tally.acks()), ":2\r\n");
}

#[test]
fn wait_tally_stops_when_the_channel_closes() {
    let mut tally = WaitTally::new(3);
    tally.record(true);
    tally.record(false);
    assert!(!tally.listening());
    tally.record(true);
    assert_eq!(tally.acks(), 1);
}

#[test]
fn wait_tally_for_nothing_does_not_listen() {
    let tally = WaitTally::new(0);
    assert!(!tally.listening());
    assert_eq!(tally.acks(), 0);
}

#[test]
fn lowercase_command_names_are_read() {
    assert_eq!(
        parse_request("*3\r\n$3\r\nset\r\n$1\r\nk\r\n$1\r\nv\r\n"),
        Command::SetValue { key: "k".to_string(), value: "v".to_string(), expiry: None }
    );
    assert_eq!(
        parse_request("*5\r\n$3\r\nSet\r\n$1\r\nk\r\n$1\r\nv\r\n$2\r\npx\r\n$2\r\n10\r\n"),
        Command::SetValue {
            key: "k".to_string(),
            value: "v".to_string(),
            expiry: Some("10".to_string())
        }
    );
}

#[test]
fn info_length_prefix_is_the_text_length() {
    for (store, role) in [(Store::new(), "master"), (replica_store(), "slave")] {
        let mut store = store;
        let out = run(&mut store, "*1\r\n$4\r\nINFO\r\n", 0);
        let text = format!(
            "role:{}\r\nmaster_replid:8371b4fb1155b71f4a04d3e1bc3e18c4a990aeeb\r\nmaster_repl_offset:0",
            role
        );
        assert_eq!(out.reply, Some(format!("${}\r\n{}\r\n", text.len(), text)));
    }
}
