//! Requests from clients: reading a command out of the request text, and
//! carrying it out against the store.
//!
//! A request is RESP array text (`*<n>\r\n$<len>\r\n<name>\r\n...`) read
//! line by line: the first line gives the number of elements, and each
//! element is the line after its `$<len>` line. The command name, and a
//! `SET`'s option name, are compared after Unicode uppercasing.
use vstd::prelude::*;
use vstd::string::StringExecFns;
use vstd::utf8::{decode_utf8, encode_utf8, encode_utf8_decode_utf8, valid_utf8};

use crate::lines::{get_next_element, Lines, after_next_element, next_element, spec_lines, lines_from};
use crate::store::Store;
use crate::text::{
    ascii_upper, is_ascii_text, char_codes, chars_of, decimal, parse_signed, parse_signed_chars, parse_unsigned,
    parse_unsigned_chars, push_decimal, str_from_utf8, string_from_chars, string_is,
};

verus! {

// ---------------------------------------------------------------------------
// Uppercasing
// ---------------------------------------------------------------------------

/// What `str::to_uppercase` gives for a string: each character replaced by
/// its Unicode uppercase mapping.
pub uninterp spec fn spec_to_uppercase(s: Seq<char>) -> Seq<char>;

/// The uppercase of `s` as `str::to_uppercase` gives it: on ASCII text the
/// ASCII uppercase, on any other text what the name above stands for.
pub open spec fn uppercase(s: Seq<char>) -> Seq<char> {
    if is_ascii_text(s) {
        ascii_upper(s)
    } else {
        spec_to_uppercase(s)
    }
}

/// The Unicode uppercase of `s` (`str::to_uppercase`). Its contract names
/// the result, and states only what the mapping does on ASCII text: `a` to
/// `z` become `A` to `Z` and every other ASCII character stays (std's
/// documentation of `str::to_ascii_uppercase` points to `to_uppercase` for
/// uppercasing ASCII characters along with the others). What it does to
/// other characters is not stated.
#[verifier::external_body]
fn to_uppercase(s: &str) -> (res: String)
    ensures
        res@ == spec_to_uppercase(s@),
        is_ascii_text(s@) ==> res@ == ascii_upper(s@),
{
    s.to_uppercase()
}

// ---------------------------------------------------------------------------
// The number of elements
// ---------------------------------------------------------------------------

/// `s` without its first character (empty stays empty).
pub open spec fn after_first(s: Seq<char>) -> Seq<char> {
    if s.len() == 0 {
        s
    } else {
        s.drop_first()
    }
}

/// The number that the header line `*<n>` announces: `n` read as an `i32`,
/// or -1 where it is not one.
pub open spec fn spec_number_of_elements(line: Seq<char>) -> int {
    match parse_signed(char_codes(after_first(line)), i32::MIN as int, i32::MAX as int) {
        Some(v) => v,
        None => -1,
    }
}

/// Reads the number of elements from an array header line such as `*3`:
/// everything after the first character, as an `i32`; -1 where that is not
/// an `i32`.
pub fn determine_number_of_elements(line: &str) -> (res: i32)
    ensures
        res == spec_number_of_elements(line@),
{
    let chars = chars_of(line);
    if chars.len() == 0 {
        return -1;
    }
    assert(chars@.subrange(1, chars@.len() as int) =~= after_first(line@));
    match parse_signed_chars(chars.as_slice(), 1, chars.len(), i32::MIN as i64, i32::MAX as i64) {
        Some(v) => v as i32,
        None => -1,
    }
}

// ---------------------------------------------------------------------------
// Commands
// ---------------------------------------------------------------------------

/// A command read from a request.
#[derive(Debug, PartialEq, Eq)]
pub enum Command {
    /// `ECHO <message>`
    Echo { message: String },
    /// `PING`
    Ping,
    /// `SET <key> <value>`, with `PX <milliseconds>` where the fourth
    /// element's uppercase is `PX` (`expiry` holds the fifth element then).
    SetValue { key: String, value: String, expiry: Option<String> },
    /// `GET <key>`
    Get { key: String },
    /// `INFO`
    Info,
    /// `REPLCONF <key> <value>`
    Replconf { key: String, value: String },
    /// `PSYNC`
    Psync,
    /// A request that is answered with nothing: an unknown command name, or
    /// a header that does not give a number of elements of at least zero.
    Invalid,
}

/// A command, with its strings as character sequences.
pub enum CommandView {
    Echo(Seq<char>),
    Ping,
    SetValue(Seq<char>, Seq<char>, Option<Seq<char>>),
    Get(Seq<char>),
    Info,
    Replconf(Seq<char>, Seq<char>),
    Psync,
    Invalid,
}

impl View for Command {
    type V = CommandView;

    open spec fn view(&self) -> CommandView {
        match self {
            Command::Echo { message } => CommandView::Echo(message@),
            Command::Ping => CommandView::Ping,
            Command::SetValue { key, value, expiry } => CommandView::SetValue(
                key@,
                value@,
                match expiry {
                    Some(e) => Some(e@),
                    None => None,
                },
            ),
            Command::Get { key } => CommandView::Get(key@),
            Command::Info => CommandView::Info,
            Command::Replconf { key, value } => CommandView::Replconf(key@, value@),
            Command::Psync => CommandView::Psync,
            Command::Invalid => CommandView::Invalid,
        }
    }
}

/// The line at index `i`, or an empty string where there is none.
pub open spec fn element(lines: Seq<Seq<char>>, i: int) -> Seq<char> {
    if 0 <= i < lines.len() {
        lines[i]
    } else {
        Seq::empty()
    }
}

/// The expiry of a `SET` whose option name, uppercased, is `option`: the
/// option's value where the option is `PX`.
pub open spec fn spec_set_expiry(option: Seq<char>, value: Seq<char>) -> Option<Seq<char>> {
    if option == "PX"@ {
        Some(value)
    } else {
        None
    }
}

/// The command whose name, uppercased, is `name`, for a request announcing
/// `n` elements, with `rest` the lines after the name: each element is the
/// line after its length line.
pub open spec fn spec_command_from_name(name: Seq<char>, n: int, rest: Seq<Seq<char>>) -> CommandView {
    if name == "ECHO"@ {
        CommandView::Echo(element(rest, 1))
    } else if name == "PING"@ {
        CommandView::Ping
    } else if name == "SET"@ {
        CommandView::SetValue(
            element(rest, 1),
            element(rest, 3),
            if n == 2 {
                None
            } else {
                spec_set_expiry(uppercase(element(rest, 5)), element(rest, 7))
            },
        )
    } else if name == "GET"@ {
        CommandView::Get(element(rest, 1))
    } else if name == "INFO"@ {
        CommandView::Info
    } else if name == "REPLCONF"@ {
        CommandView::Replconf(element(rest, 1), element(rest, 3))
    } else if name == "PSYNC"@ {
        CommandView::Psync
    } else {
        CommandView::Invalid
    }
}

/// The command that the request text `text` asks for.
pub open spec fn spec_parse_request(text: Seq<char>) -> CommandView {
    let lines = spec_lines(text);
    let n = spec_number_of_elements(element(lines, 0));
    if n < 0 {
        CommandView::Invalid
    } else {
        spec_command_from_name(uppercase(element(lines, 2)), n, lines_after(lines, 3))
    }
}

/// The lines from index `k` on (none where `k` is past the end).
pub open spec fn lines_after(lines: Seq<Seq<char>>, k: int) -> Seq<Seq<char>> {
    if k <= lines.len() {
        lines.skip(k)
    } else {
        Seq::empty()
    }
}

/// Taking an element from the lines after index `k` gives the line at
/// `k + 1` and leaves the lines after `k + 2`.
proof fn lemma_next_element(lines: Seq<Seq<char>>, k: int)
    requires
        0 <= k,
    ensures
        next_element(lines_after(lines, k)) == element(lines, k + 1),
        after_next_element(lines_after(lines, k)) =~= lines_after(lines, k + 2),
{
}

/// A text with characters has at least one line.
proof fn lemma_lines_nonempty(s: Seq<char>)
    requires
        s.len() > 0,
    ensures
        spec_lines(s).len() > 0,
{
    assert(lines_from(s, 0).len() > 0);
}

/// The expiry of a `SET` whose option name, uppercased, is `option`.
pub fn set_expiry(option: &String, value: String) -> (res: Option<String>)
    ensures
        match spec_set_expiry(option@, value@) {
            Some(v) => res matches Some(r) && r@ == v,
            None => res is None,
        },
{
    if string_is(option, "PX") {
        Some(value)
    } else {
        None
    }
}

/// How many elements the command named `name` reads, for a request
/// announcing `n` elements.
pub open spec fn elements_read(name: Seq<char>, n: int) -> nat {
    if name == "ECHO"@ || name == "GET"@ {
        1
    } else if name == "SET"@ {
        if n == 2 {
            2
        } else {
            4
        }
    } else if name == "REPLCONF"@ {
        2
    } else {
        0
    }
}

/// Reads the command whose name, uppercased, is `name` from the lines after
/// the name, for a request announcing `n` elements.
pub fn command_from_name(name: &String, n: i32, lines: &mut Lines) -> (res: Command)
    ensures
        res@ == spec_command_from_name(name@, n as int, old(lines).remaining()),
        final(lines).remaining() == lines_after(
            old(lines).remaining(),
            2 * elements_read(name@, n as int) as int,
        ),
{
    let ghost rest = lines.remaining();
    assert(rest =~= lines_after(rest, 0));
    proof {
        reveal_strlit("ECHO");
        reveal_strlit("GET");
        reveal_strlit("SET");
        reveal_strlit("REPLCONF");
        reveal_strlit("PING");
        reveal_strlit("INFO");
        assert("SET"@[0] != "GET"@[0]);
        assert("PING"@[0] != "ECHO"@[0]);
        assert("INFO"@[0] != "ECHO"@[0]);
    }
    if string_is(name, "ECHO") {
        let message = get_next_element(lines);
        proof {
            lemma_next_element(rest, 0);
        }
        Command::Echo { message }
    } else if string_is(name, "PING") {
        Command::Ping
    } else if string_is(name, "SET") {
        let key = get_next_element(lines);
        proof {
            lemma_next_element(rest, 0);
        }
        let value = get_next_element(lines);
        proof {
            lemma_next_element(rest, 2);
        }
        if n == 2 {
            return Command::SetValue { key, value, expiry: None };
        }
        let sub_command = get_next_element(lines);
        proof {
            lemma_next_element(rest, 4);
        }
        let sub_value = get_next_element(lines);
        proof {
            lemma_next_element(rest, 6);
        }
        let option = to_uppercase(sub_command.as_str());
        let expiry = set_expiry(&option, sub_value);
        Command::SetValue { key, value, expiry }
    } else if string_is(name, "GET") {
        let key = get_next_element(lines);
        proof {
            lemma_next_element(rest, 0);
        }
        Command::Get { key }
    } else if string_is(name, "INFO") {
        Command::Info
    } else if string_is(name, "REPLCONF") {
        let key = get_next_element(lines);
        proof {
            lemma_next_element(rest, 0);
        }
        let value = get_next_element(lines);
        proof {
            lemma_next_element(rest, 2);
        }
        Command::Replconf { key, value }
    } else if string_is(name, "PSYNC") {
        Command::Psync
    } else {
        Command::Invalid
    }
}

/// Reads the command of a request: the header line's number of elements,
/// then the command name (uppercased) and the elements that the command
/// uses.
pub fn parse_request(request: &str) -> (res: Command)
    requires
        request@.len() > 0,
    ensures
        res@ == spec_parse_request(request@),
{
    let ghost all = spec_lines(request@);
    proof {
        lemma_lines_nonempty(request@);
    }
    let mut lines = Lines::new(request);
    let first = match lines.next() {
        Some(line) => line,
        None => String::new(),
    };
    assert(lines.remaining() =~= lines_after(all, 1));
    let n = determine_number_of_elements(first.as_str());
    if n < 0 {
        return Command::Invalid;
    }
    let element_one = get_next_element(&mut lines);
    proof {
        lemma_next_element(all, 1);
    }
    let name = to_uppercase(element_one.as_str());
    command_from_name(&name, n, &mut lines)
}

// ---------------------------------------------------------------------------
// Replies
// ---------------------------------------------------------------------------

/// The number of bytes of the UTF-8 encoding of `s`, as `str::len` gives it.
pub open spec fn byte_len(s: Seq<char>) -> nat {
    (encode_utf8(s).len() as usize) as nat
}

/// A bulk string reply: `$<byte length>\r\n<s>\r\n`.
pub open spec fn bulk(s: Seq<char>) -> Seq<char> {
    "$"@ + decimal(byte_len(s)) + "\r\n"@ + s + "\r\n"@
}

/// The reply for a missing value.
pub open spec fn nil() -> Seq<char> {
    "$-1\r\n"@
}

/// The command sent to replicas for `SET key value`.
pub open spec fn set_message(key: Seq<char>, value: Seq<char>) -> Seq<char> {
    "*3\r\n$3\r\nSET\r\n$"@ + decimal(byte_len(key)) + "\r\n"@ + key + "\r\n$"@ + decimal(
        byte_len(value),
    ) + "\r\n"@ + value + "\r\n"@
}

/// The reply to `REPLCONF GETACK`: the replication offset, as
/// `REPLCONF ACK <offset>`.
pub open spec fn ack_reply(offset: Seq<char>) -> Seq<char> {
    "*3\r\n$8\r\nREPLCONF\r\n$3\r\nACK\r\n$"@ + decimal(byte_len(offset)) + "\r\n"@ + offset
        + "\r\n"@
}

/// The reply to `INFO` on a replica.
pub open spec fn info_replica() -> Seq<char> {
    "$88\r\nrole:slave\r\nmaster_replid:8371b4fb1155b71f4a04d3e1bc3e18c4a990aeeb\r\nmaster_repl_offset:0\r\n"@
}

/// The reply to `INFO` on a master.
pub open spec fn info_master() -> Seq<char> {
    "$89\r\nrole:master\r\nmaster_replid:8371b4fb1155b71f4a04d3e1bc3e18c4a990aeeb\r\nmaster_repl_offset:0\r\n"@
}

/// The reply to `PSYNC`.
pub open spec fn full_resync() -> Seq<char> {
    "+FULLRESYNC 8371b4fb1155b71f4a04d3e1bc3e18c4a990aeeb 0\r\n"@
}

/// Appends `s` as a bulk string.
fn push_bulk(out: &mut String, s: &str)
    ensures
        final(out)@ == old(out)@ + bulk(s@),
{
    out.append("$");
    push_decimal(out, s.len() as u64);
    out.append("\r\n");
    out.append(s);
    out.append("\r\n");
    assert(final(out)@ =~= old(out)@ + bulk(s@));
}

/// A bulk string reply holding `s`.
pub fn bulk_reply(s: &str) -> (res: String)
    ensures
        res@ == bulk(s@),
{
    let mut out = String::new();
    push_bulk(&mut out, s);
    assert(out@ =~= bulk(s@));
    out
}

/// The command sent to replicas for `SET key value`.
pub fn build_set_message(key: &str, value: &str) -> (res: String)
    ensures
        res@ == set_message(key@, value@),
{
    let mut out = "*3\r\n$3\r\nSET\r\n$".to_owned();
    push_decimal(&mut out, key.len() as u64);
    out.append("\r\n");
    out.append(key);
    out.append("\r\n$");
    push_decimal(&mut out, value.len() as u64);
    out.append("\r\n");
    out.append(value);
    out.append("\r\n");
    assert(out@ =~= set_message(key@, value@));
    out
}

/// The reply to `REPLCONF GETACK` for the offset `offset`.
pub fn build_ack_reply(offset: &str) -> (res: String)
    ensures
        res@ == ack_reply(offset@),
{
    let mut out = "*3\r\n$8\r\nREPLCONF\r\n$3\r\nACK\r\n$".to_owned();
    push_decimal(&mut out, offset.len() as u64);
    out.append("\r\n");
    out.append(offset);
    out.append("\r\n");
    assert(out@ =~= ack_reply(offset@));
    out
}

// ---------------------------------------------------------------------------
// Stored values with an expiry
// ---------------------------------------------------------------------------

/// The first index `i >= from` that starts a `\r\n`, or the length of `s`.
pub open spec fn find_crlf(s: Seq<char>, from: int) -> int
    decreases s.len() - from,
{
    if from < 0 || from + 1 >= s.len() {
        s.len() as int
    } else if s[from] == '\r' && s[from + 1] == '\n' {
        from
    } else {
        find_crlf(s, from + 1)
    }
}

/// A found `\r\n` lies in range, and none starts before it.
pub proof fn lemma_find_crlf(s: Seq<char>, from: int)
    requires
        0 <= from <= s.len(),
    ensures
        from <= find_crlf(s, from) <= s.len(),
        find_crlf(s, from) < s.len() ==> find_crlf(s, from) + 1 < s.len() && s[find_crlf(
            s,
            from,
        )] == '\r' && s[find_crlf(s, from) + 1] == '\n',
    decreases s.len() - from,
{
    if from + 1 < s.len() && !(s[from] == '\r' && s[from + 1] == '\n') {
        lemma_find_crlf(s, from + 1);
    }
}

/// The part of a stored value before its first `\r\n`: the value itself.
pub open spec fn stored_value(full: Seq<char>) -> Seq<char> {
    full.subrange(0, find_crlf(full, 0))
}

/// The part of a stored value between its first and its second `\r\n`: the
/// expiry time, where there is one (empty otherwise).
pub open spec fn stored_expiry(full: Seq<char>) -> Seq<char> {
    let i = find_crlf(full, 0);
    if i >= full.len() {
        Seq::empty()
    } else {
        full.subrange(i + 2, find_crlf(full, i + 2))
    }
}

/// A stored value can be read: it has no expiry part, or the expiry part is
/// a `u64`.
pub open spec fn readable(full: Seq<char>) -> bool {
    stored_expiry(full).len() == 0 || parse_unsigned(char_codes(stored_expiry(full)), u64::MAX as int) is Some
}

/// The reply to `GET` at time `now` (milliseconds since the epoch) for what
/// is stored under the key.
pub open spec fn get_reply(stored: Option<Seq<char>>, now: int) -> Seq<char> {
    match stored {
        None => nil(),
        Some(full) => {
            let expiry = stored_expiry(full);
            if expiry.len() == 0 {
                bulk(stored_value(full))
            } else {
                match parse_unsigned(char_codes(expiry), u64::MAX as int) {
                    Some(t) => if now > t {
                        nil()
                    } else {
                        bulk(stored_value(full))
                    },
                    None => nil(),
                }
            }
        },
    }
}

/// The first index `i >= from` that starts a `\r\n`, or the length of `s`.
fn find_crlf_from(s: &Vec<char>, from: usize) -> (res: usize)
    requires
        from <= s@.len(),
    ensures
        res == find_crlf(s@, from as int),
{
    let mut i = from;
    while s.len() - i > 1
        invariant
            from <= i <= s@.len(),
            find_crlf(s@, from as int) == find_crlf(s@, i as int),
        decreases s@.len() - i,
    {
        if s[i] == '\r' && s[i + 1] == '\n' {
            return i;
        }
        i = i + 1;
    }
    s.len()
}

/// Splits a stored value into its value and its expiry part, and reads the
/// expiry. Gives `None` for the expiry where there is no expiry part, and
/// `Some(None)` where the expiry part is not a `u64`.
fn split_stored(full: &String) -> (res: (String, Option<Option<u64>>))
    ensures
        res.0@ == stored_value(full@),
        stored_expiry(full@).len() == 0 ==> res.1 is None,
        stored_expiry(full@).len() > 0 ==> res.1 == Some(
            match parse_unsigned(char_codes(stored_expiry(full@)), u64::MAX as int) {
                Some(t) => Some(t as u64),
                None => None::<u64>,
            },
        ),
{
    let chars = chars_of(full.as_str());
    let i = find_crlf_from(&chars, 0);
    proof {
        lemma_find_crlf(chars@, 0);
    }
    let value = string_from_chars(&chars, 0, i);
    if i >= chars.len() {
        return (value, None);
    }
    let j = find_crlf_from(&chars, i + 2);
    proof {
        lemma_find_crlf(chars@, i + 2);
    }
    if j == i + 2 {
        return (value, None);
    }
    assert(chars@.subrange(i + 2, j as int) =~= stored_expiry(full@));
    let parsed = parse_unsigned_chars(chars.as_slice(), i + 2, j, u64::MAX);
    (value, Some(parsed))
}

/// Whether a stored value can be read by `GET`.
pub fn stored_is_readable(full: &String) -> (res: bool)
    ensures
        res == readable(full@),
{
    let (_value, expiry) = split_stored(full);
    match expiry {
        Some(None) => false,
        _ => true,
    }
}

// ---------------------------------------------------------------------------
// Carrying out commands
// ---------------------------------------------------------------------------

/// What carrying out a command asks of the connection that sent it.
#[derive(Debug, PartialEq, Eq)]
pub struct Outcome {
    /// Sent back on the connection.
    pub reply: Option<String>,
    /// After sending the reply, wait for an answer on the connection.
    pub await_answer: bool,
    /// Sent to the replicas, before the reply.
    pub replicate: Option<String>,
    /// After the reply, send the snapshot and then the stream of replicated
    /// commands.
    pub start_transfer: bool,
}

/// An outcome, with its strings as character sequences.
pub struct OutcomeView {
    pub reply: Option<Seq<char>>,
    pub await_answer: bool,
    pub replicate: Option<Seq<char>>,
    pub start_transfer: bool,
}

impl View for Outcome {
    type V = OutcomeView;

    open spec fn view(&self) -> OutcomeView {
        OutcomeView {
            reply: match self.reply {
                Some(r) => Some(r@),
                None => None,
            },
            await_answer: self.await_answer,
            replicate: match self.replicate {
                Some(r) => Some(r@),
                None => None,
            },
            start_transfer: self.start_transfer,
        }
    }
}

/// Nothing to send.
pub open spec fn quiet() -> OutcomeView {
    OutcomeView { reply: None, await_answer: false, replicate: None, start_transfer: false }
}

/// Only a reply to send.
pub open spec fn reply_only(r: Seq<char>) -> OutcomeView {
    OutcomeView { reply: Some(r), await_answer: false, replicate: None, start_transfer: false }
}

/// The server is a replica: its store names a master under `replicaof`.
pub open spec fn is_replica(store: Map<Seq<char>, Seq<char>>) -> bool {
    store.contains_key("replicaof"@)
}

/// What is stored under `key`, if anything.
pub open spec fn lookup(store: Map<Seq<char>, Seq<char>>, key: Seq<char>) -> Option<Seq<char>> {
    if store.contains_key(key) {
        Some(store[key])
    } else {
        None
    }
}

/// What a `SET` sends: on a master, the command to the replicas and `+OK`
/// to the client; on a replica, nothing.
pub open spec fn set_outcome(
    store: Map<Seq<char>, Seq<char>>,
    key: Seq<char>,
    value: Seq<char>,
) -> OutcomeView {
    if is_replica(store) {
        quiet()
    } else {
        OutcomeView {
            reply: Some("+OK\r\n"@),
            await_answer: false,
            replicate: Some(set_message(key, value)),
            start_transfer: false,
        }
    }
}

/// The stored form of a value that expires at `at`.
pub open spec fn with_expiry(value: Seq<char>, at: int) -> Seq<char> {
    value + "\r\n"@ + decimal(at as nat)
}

/// The command can be carried out: a `GET` finds a readable value (or
/// none), and a `SET ... PX` expiry does not overflow a `u64`.
pub open spec fn executable(store: Map<Seq<char>, Seq<char>>, cmd: CommandView, now: int) -> bool {
    match cmd {
        CommandView::Get(k) => store.contains_key(k) ==> readable(store[k]),
        CommandView::SetValue(_, _, Some(e)) => match parse_unsigned(char_codes(e), u64::MAX as int) {
            Some(d) => now + d <= u64::MAX,
            None => true,
        },
        _ => true,
    }
}

/// Carrying out `cmd` at time `now` on a store: the store after it, and
/// what to send.
pub open spec fn spec_execute(store: Map<Seq<char>, Seq<char>>, cmd: CommandView, now: int) -> (
    Map<Seq<char>, Seq<char>>,
    OutcomeView,
) {
    match cmd {
        CommandView::Echo(m) => (
            store,
            OutcomeView {
                reply: Some(bulk(m)),
                await_answer: true,
                replicate: None,
                start_transfer: false,
            },
        ),
        CommandView::Ping => (store, reply_only("+PONG\r\n"@)),
        CommandView::SetValue(k, v, None) => (store.insert(k, v), set_outcome(store, k, v)),
        CommandView::SetValue(k, v, Some(e)) => match parse_unsigned(char_codes(e), u64::MAX as int) {
            Some(d) => (store.insert(k, with_expiry(v, now + d)), set_outcome(store, k, v)),
            None => (store, quiet()),
        },
        CommandView::Get(k) => (store, reply_only(get_reply(lookup(store, k), now))),
        CommandView::Info => (
            store,
            reply_only(
                if is_replica(store) {
                    info_replica()
                } else {
                    info_master()
                },
            ),
        ),
        CommandView::Replconf(k, _) => (
            store,
            reply_only(
                if k == "GETACK"@ {
                    ack_reply(
                        match lookup(store, "master_repl_offset"@) {
                            Some(o) => o,
                            None => "0"@,
                        },
                    )
                } else {
                    "+OK\r\n"@
                },
            ),
        ),
        CommandView::Psync => (
            store,
            OutcomeView {
                reply: Some(full_resync()),
                await_answer: false,
                replicate: None,
                start_transfer: true,
            },
        ),
        CommandView::Invalid => (store, quiet()),
    }
}

/// Nothing to send (exec).
fn no_outcome() -> (res: Outcome)
    ensures
        res@ == quiet(),
{
    Outcome { reply: None, await_answer: false, replicate: None, start_transfer: false }
}

/// Just a reply (exec).
fn reply_outcome(r: String) -> (res: Outcome)
    ensures
        res@ == reply_only(r@),
{
    Outcome { reply: Some(r), await_answer: false, replicate: None, start_transfer: false }
}

/// Whether the store names a master, which makes this server a replica.
pub fn store_is_replica(store: &Store) -> (res: bool)
    ensures
        res == is_replica(store@),
{
    store.contains_key(&"replicaof".to_owned())
}

/// Whether carrying out `cmd` at time `now` would abort: a `GET` of a value
/// whose expiry part is not a number, or a `SET ... PX` whose expiry
/// overflows.
pub fn execution_aborts(store: &Store, cmd: &Command, now: u64) -> (res: bool)
    ensures
        res == !executable(store@, cmd@, now as int),
{
    match cmd {
        Command::Get { key } => match store.get(key) {
            Some(full) => !stored_is_readable(&full),
            None => false,
        },
        Command::SetValue { key: _, value: _, expiry: Some(e) } => {
            let chars = chars_of(e.as_str());
            assert(chars@.subrange(0, chars@.len() as int) =~= e@);
            match parse_unsigned_chars(chars.as_slice(), 0, chars.len(), u64::MAX) {
                Some(d) => d > u64::MAX - now,
                None => false,
            }
        },
        _ => false,
    }
}

/// Carries out `cmd` at time `now` (milliseconds since the epoch) on the
/// store, and says what to send.
pub fn execute(store: &mut Store, cmd: Command, now: u64) -> (res: Outcome)
    requires
        executable(old(store)@, cmd@, now as int),
    ensures
        (final(store)@, res@) == spec_execute(old(store)@, cmd@, now as int),
{
    let ghost before = store@;
    let replica = store_is_replica(store);
    match cmd {
        Command::Echo { message } => {
            let r = bulk_reply(message.as_str());
            Outcome { reply: Some(r), await_answer: true, replicate: None, start_transfer: false }
        },
        Command::Ping => reply_outcome("+PONG\r\n".to_owned()),
        Command::SetValue { key, value, expiry } => {
            let stored = match expiry {
                None => value.clone(),
                Some(e) => {
                    let chars = chars_of(e.as_str());
                    assert(chars@.subrange(0, chars@.len() as int) =~= e@);
                    match parse_unsigned_chars(chars.as_slice(), 0, chars.len(), u64::MAX) {
                        Some(d) => {
                            let mut s = value.clone();
                            s.append("\r\n");
                            push_decimal(&mut s, now + d);
                            assert(s@ =~= with_expiry(value@, now + d));
                            s
                        },
                        None => {
                            return no_outcome();
                        },
                    }
                },
            };
            let message = build_set_message(key.as_str(), value.as_str());
            store.insert(key, stored);
            if replica {
                no_outcome()
            } else {
                Outcome {
                    reply: Some("+OK\r\n".to_owned()),
                    await_answer: false,
                    replicate: Some(message),
                    start_transfer: false,
                }
            }
        },
        Command::Get { key } => {
            let stored = store.get(&key);
            let r = match stored {
                None => "$-1\r\n".to_owned(),
                Some(full) => {
                    let (value, expiry) = split_stored(&full);
                    match expiry {
                        None => bulk_reply(value.as_str()),
                        Some(Some(t)) => if now > t {
                            "$-1\r\n".to_owned()
                        } else {
                            bulk_reply(value.as_str())
                        },
                        Some(None) => "$-1\r\n".to_owned(),
                    }
                },
            };
            reply_outcome(r)
        },
        Command::Info => {
            if replica {
                reply_outcome(
                    "$88\r\nrole:slave\r\nmaster_replid:8371b4fb1155b71f4a04d3e1bc3e18c4a990aeeb\r\nmaster_repl_offset:0\r\n".to_owned(),
                )
            } else {
                reply_outcome(
                    "$89\r\nrole:master\r\nmaster_replid:8371b4fb1155b71f4a04d3e1bc3e18c4a990aeeb\r\nmaster_repl_offset:0\r\n".to_owned(),
                )
            }
        },
        Command::Replconf { key, value: _ } => {
            if string_is(&key, "GETACK") {
                let offset = match store.get(&"master_repl_offset".to_owned()) {
                    Some(o) => o,
                    None => "0".to_owned(),
                };
                reply_outcome(build_ack_reply(offset.as_str()))
            } else {
                reply_outcome("+OK\r\n".to_owned())
            }
        },
        Command::Psync => Outcome {
            reply: Some("+FULLRESYNC 8371b4fb1155b71f4a04d3e1bc3e18c4a990aeeb 0\r\n".to_owned()),
            await_answer: false,
            replicate: None,
            start_transfer: true,
        },
        Command::Invalid => no_outcome(),
    }
}

} // verus!

verus! {

// ---------------------------------------------------------------------------
// Requests as they arrive
// ---------------------------------------------------------------------------

/// What a connection does with bytes it has read.
#[derive(Debug, PartialEq, Eq)]
pub enum Incoming {
    /// The bytes are not UTF-8: the connection ends with an error.
    NotUtf8,
    /// The text does not start with `*`: nothing is done.
    Unhandled,
    /// The text is an array request: carry out its command.
    Request(Command),
}

/// What a connection does with the bytes `buf`: nothing for text that is
/// not an array, and the command of an array request.
pub open spec fn incoming_matches(buf: Seq<u8>, res: Incoming) -> bool {
    if !valid_utf8(buf) {
        res is NotUtf8
    } else {
        let text = decode_utf8(buf);
        if text.len() > 0 && text[0] == '*' {
            res matches Incoming::Request(cmd) && cmd@ == spec_parse_request(text)
        } else {
            res is Unhandled
        }
    }
}

/// Reads the bytes a client sent into what to do with them.
pub fn classify_request(buf: &[u8]) -> (res: Incoming)
    ensures
        incoming_matches(buf@, res),
{
    match str_from_utf8(buf) {
        None => Incoming::NotUtf8,
        Some(text) => {
            proof {
                encode_utf8_decode_utf8(text@);
            }
            let chars = chars_of(text);
            if chars.len() > 0 && chars[0] == '*' {
                Incoming::Request(parse_request(text))
            } else {
                Incoming::Unhandled
            }
        },
    }
}

// ---------------------------------------------------------------------------
// WAIT
// ---------------------------------------------------------------------------

/// An element read as a `usize`, 0 where it is not one.
pub open spec fn count_or_zero(s: Seq<char>) -> int {
    match parse_unsigned(char_codes(s), usize::MAX as int) {
        Some(v) => v,
        None => 0,
    }
}

/// An element read as a `u64`, 0 where it is not one.
pub open spec fn millis_or_zero(s: Seq<char>) -> int {
    match parse_unsigned(char_codes(s), u64::MAX as int) {
        Some(v) => v,
        None => 0,
    }
}

/// Reads the arguments of `WAIT`: the number of acknowledgements to wait
/// for and the time limit in milliseconds, each 0 where the element is not
/// a number.
pub fn wait_arguments(lines: &mut Lines) -> (res: (usize, u64))
    ensures
        res.0 == count_or_zero(next_element(old(lines).remaining())),
        res.1 == millis_or_zero(next_element(after_next_element(old(lines).remaining()))),
        final(lines).remaining() == after_next_element(after_next_element(old(lines).remaining())),
{
    let first = get_next_element(lines);
    let chars = chars_of(first.as_str());
    assert(chars@.subrange(0, chars@.len() as int) =~= first@);
    let acks = match parse_unsigned_chars(chars.as_slice(), 0, chars.len(), usize::MAX as u64) {
        Some(v) => v as usize,
        None => 0,
    };
    let second = get_next_element(lines);
    let chars2 = chars_of(second.as_str());
    assert(chars2@.subrange(0, chars2@.len() as int) =~= second@);
    let millis = match parse_unsigned_chars(chars2.as_slice(), 0, chars2.len(), u64::MAX) {
        Some(v) => v,
        None => 0,
    };
    (acks, millis)
}

/// The count that `WAIT` keeps while it listens for acknowledgements: how
/// many came, how many it waits for, and whether the channel they come on
/// has closed. It never counts more than it waits for.
pub struct WaitTally {
    acks: usize,
    wanted: usize,
    closed: bool,
}

impl WaitTally {
    #[verifier::type_invariant]
    spec fn within_wanted(self) -> bool {
        self.acks <= self.wanted
    }

    /// The acknowledgements counted.
    pub closed spec fn received(&self) -> nat {
        self.acks as nat
    }

    /// The acknowledgements waited for.
    pub closed spec fn target(&self) -> nat {
        self.wanted as nat
    }

    /// The channel of acknowledgements has closed.
    pub closed spec fn ended(&self) -> bool {
        self.closed
    }

    /// `WAIT` still listens: fewer acknowledgements than it waits for have
    /// come, and more can come.
    pub open spec fn spec_listening(&self) -> bool {
        self.received() < self.target() && !self.ended()
    }

    /// A tally waiting for `wanted` acknowledgements, none counted yet.
    pub fn new(wanted: usize) -> (res: WaitTally)
        ensures
            res.received() == 0,
            res.target() == wanted,
            !res.ended(),
    {
        WaitTally { acks: 0, wanted, closed: false }
    }

    /// Whether `WAIT` still listens for acknowledgements.
    pub fn listening(&self) -> (res: bool)
        ensures
            res == self.spec_listening(),
    {
        self.acks < self.wanted && !self.closed
    }

    /// The acknowledgements counted, for the reply.
    pub fn acks(&self) -> (res: usize)
        ensures
            res == self.received(),
            res <= self.target(),
    {
        proof {
            use_type_invariant(self);
        }
        self.acks
    }

    /// Takes what listening gave: an acknowledgement (`true`) is counted,
    /// the channel's end (`false`) stops the listening. Where the tally no
    /// longer listens, nothing changes.
    pub fn record(&mut self, got_ack: bool)
        ensures
            old(self).spec_listening() && got_ack ==> final(self).received() == old(self).received()
                + 1 && !final(self).ended(),
            old(self).spec_listening() && !got_ack ==> final(self).received() == old(
                self,
            ).received() && final(self).ended(),
            !old(self).spec_listening() ==> final(self).received() == old(self).received()
                && final(self).ended() == old(self).ended(),
            final(self).target() == old(self).target(),
            final(self).received() <= final(self).target(),
    {
        proof {
            use_type_invariant(&*self);
        }
        if self.acks < self.wanted && !self.closed {
            if got_ack {
                self.acks = self.acks + 1;
            } else {
                self.closed = true;
            }
        }
    }
}

/// The reply to `WAIT`: the number of acknowledgements received, `:<n>\r\n`.
pub fn wait_reply(acks: usize) -> (res: String)
    ensures
        res@ == ":"@ + decimal(acks as nat) + "\r\n"@,
{
    let mut out = ":".to_owned();
    push_decimal(&mut out, acks as u64);
    out.append("\r\n");
    out
}

} // verus!
