//! How a replica sets up its link to the master: it records the master it
//! replicates, works out the master's address, and goes through the
//! handshake (`PING`, `REPLCONF listening-port`, `REPLCONF capa`, `PSYNC`),
//! sending one message and reading one reply line at each stage.
use vstd::prelude::*;
use vstd::string::StringExecFns;
use vstd::utf8::{decode_utf8, encode_utf8_decode_utf8, valid_utf8};

use crate::config::Config;
use crate::store::Store;
use crate::text::{chars_of, split_words, str_from_utf8, trim, trim_string, words};

verus! {

/// Records the configured master in the store, under `replicaof`.
pub fn store_replication(config: &Config, store: &mut Store)
    ensures
        final(store)@ == old(store)@.insert("replicaof"@, config.replicaof@),
{
    let value = config.replicaof.clone();
    store.insert("replicaof".to_owned(), value);
}

/// The master's address, `<host>:<port>`, from the stored `replicaof` value
/// `<host> <port>`: exactly two words are needed.
pub open spec fn spec_master_address(store: Map<Seq<char>, Seq<char>>) -> Result<Seq<char>, Seq<char>> {
    if !store.contains_key("replicaof"@) {
        Err("replicaof configuration is missing"@)
    } else {
        let parts = words(store["replicaof"@]);
        if parts.len() == 2 {
            Ok(parts[0] + ":"@ + parts[1])
        } else {
            Err("Invalid replicaof configuration"@)
        }
    }
}

/// Works out the master's address from the store.
pub fn master_address(store: &Store) -> (res: Result<String, &'static str>)
    ensures
        match spec_master_address(store@) {
            Ok(a) => res matches Ok(s) && s@ == a,
            Err(m) => res matches Err(e) && e@ == m,
        },
{
    match store.get(&"replicaof".to_owned()) {
        None => Err("replicaof configuration is missing"),
        Some(replicaof) => {
            let parts = split_words(replicaof.as_str());
            assert(parts@.len() == words(replicaof@).len());
            if parts.len() == 2 {
                let mut address = parts[0].clone();
                address.append(":");
                address.append(parts[1].as_str());
                assert(parts@.map_values(|w: String| w@)[0] == parts@[0]@);
                assert(parts@.map_values(|w: String| w@)[1] == parts@[1]@);
                Ok(address)
            } else {
                Err("Invalid replicaof configuration")
            }
        },
    }
}

/// Where the replica is in the handshake.
#[derive(Clone, Copy, PartialEq, Eq, Debug)]
pub enum HandshakeStage {
    /// Send `PING`.
    Ping,
    /// Send `REPLCONF listening-port 6380`.
    ListeningPort,
    /// Send `REPLCONF capa psync2`.
    Capabilities,
    /// Send `PSYNC ? -1`; the master must answer `+FULLRESYNC ...`.
    Psync,
    /// The handshake is complete.
    Done,
}

/// Why the handshake failed.
#[derive(Debug, PartialEq, Eq)]
pub enum HandshakeError {
    /// A reply line is not UTF-8.
    InvalidUtf8,
    /// The master did not answer `PSYNC` with a full resynchronisation; the
    /// (trimmed) reply it gave.
    UnexpectedPsyncResponse(String),
}

/// The message sent at each stage.
pub open spec fn stage_message(stage: HandshakeStage) -> Option<Seq<char>> {
    match stage {
        HandshakeStage::Ping => Some("*1\r\n$4\r\nPING\r\n"@),
        HandshakeStage::ListeningPort => Some(
            "*3\r\n$8\r\nREPLCONF\r\n$14\r\nlistening-port\r\n$4\r\n6380\r\n"@,
        ),
        HandshakeStage::Capabilities => Some("*3\r\n$8\r\nREPLCONF\r\n$4\r\ncapa\r\n$6\r\npsync2\r\n"@),
        HandshakeStage::Psync => Some("*3\r\n$5\r\nPSYNC\r\n$1\r\n?\r\n$2\r\n-1\r\n"@),
        HandshakeStage::Done => None,
    }
}

/// The message to send at `stage`; none once the handshake is complete.
pub fn handshake_message(stage: HandshakeStage) -> (res: Option<&'static str>)
    ensures
        match stage_message(stage) {
            Some(m) => res matches Some(s) && s@ == m,
            None => res is None,
        },
{
    match stage {
        HandshakeStage::Ping => Some("*1\r\n$4\r\nPING\r\n"),
        HandshakeStage::ListeningPort => Some(
            "*3\r\n$8\r\nREPLCONF\r\n$14\r\nlistening-port\r\n$4\r\n6380\r\n",
        ),
        HandshakeStage::Capabilities => Some("*3\r\n$8\r\nREPLCONF\r\n$4\r\ncapa\r\n$6\r\npsync2\r\n"),
        HandshakeStage::Psync => Some("*3\r\n$5\r\nPSYNC\r\n$1\r\n?\r\n$2\r\n-1\r\n"),
        HandshakeStage::Done => None,
    }
}

/// The text of a reply line: the bytes read as UTF-8, trimmed.
pub fn reply_text(line: &[u8]) -> (res: Option<String>)
    ensures
        res is Some <==> valid_utf8(line@),
        res matches Some(t) ==> t@ == trim(decode_utf8(line@)),
{
    match str_from_utf8(line) {
        None => None,
        Some(s) => {
            proof {
                encode_utf8_decode_utf8(s@);
            }
            Some(trim_string(s))
        },
    }
}

/// `t` begins with `p`.
pub open spec fn starts_with(t: Seq<char>, p: Seq<char>) -> bool {
    p.len() <= t.len() && t.subrange(0, p.len() as int) == p
}

/// Whether `t` begins with `p`.
fn text_starts_with(t: &String, p: &str) -> (res: bool)
    ensures
        res == starts_with(t@, p@),
{
    let tc = chars_of(t.as_str());
    let pc = chars_of(p);
    if pc.len() > tc.len() {
        return false;
    }
    let mut i: usize = 0;
    while i < pc.len()
        invariant
            pc@.len() <= tc@.len(),
            i <= pc@.len(),
            tc@ == t@,
            pc@ == p@,
            forall|k: int| 0 <= k < i ==> tc@[k] == pc@[k],
        decreases pc@.len() - i,
    {
        if tc[i] != pc[i] {
            assert(t@.subrange(0, p@.len() as int)[i as int] != p@[i as int]);
            return false;
        }
        i = i + 1;
    }
    assert(t@.subrange(0, p@.len() as int) =~= p@);
    true
}

/// The stage after `stage`, given the master's reply line to its message:
/// every reply must be UTF-8, and the reply to `PSYNC` must begin with
/// `+FULLRESYNC` once trimmed.
pub fn handshake_advance(stage: HandshakeStage, reply: &[u8]) -> (res: Result<
    HandshakeStage,
    HandshakeError,
>)
    ensures
        !valid_utf8(reply@) ==> res matches Err(HandshakeError::InvalidUtf8),
        valid_utf8(reply@) ==> match stage {
            HandshakeStage::Ping => res == Ok::<HandshakeStage, HandshakeError>(
                HandshakeStage::ListeningPort,
            ),
            HandshakeStage::ListeningPort => res == Ok::<HandshakeStage, HandshakeError>(
                HandshakeStage::Capabilities,
            ),
            HandshakeStage::Capabilities => res == Ok::<HandshakeStage, HandshakeError>(
                HandshakeStage::Psync,
            ),
            HandshakeStage::Psync => if starts_with(trim(decode_utf8(reply@)), "+FULLRESYNC"@) {
                res == Ok::<HandshakeStage, HandshakeError>(HandshakeStage::Done)
            } else {
                res matches Err(HandshakeError::UnexpectedPsyncResponse(t)) && t@ == trim(
                    decode_utf8(reply@),
                )
            },
            HandshakeStage::Done => res == Ok::<HandshakeStage, HandshakeError>(
                HandshakeStage::Done,
            ),
        },
{
    let text = match reply_text(reply) {
        None => return Err(HandshakeError::InvalidUtf8),
        Some(t) => t,
    };
    match stage {
        HandshakeStage::Ping => Ok(HandshakeStage::ListeningPort),
        HandshakeStage::ListeningPort => Ok(HandshakeStage::Capabilities),
        HandshakeStage::Capabilities => Ok(HandshakeStage::Psync),
        HandshakeStage::Psync => {
            if text_starts_with(&text, "+FULLRESYNC") {
                Ok(HandshakeStage::Done)
            } else {
                Err(HandshakeError::UnexpectedPsyncResponse(text))
            }
        },
        HandshakeStage::Done => Ok(HandshakeStage::Done),
    }
}

} // verus!
