//! The replica's side of the replication link: the bytes that the master
//! streams are first a snapshot (`$<len>\r\n` and the snapshot's bytes),
//! which is skipped, and then RESP messages, each carried out as a command
//! against the replica's store. The replica counts the bytes it has
//! processed in its store under `master_repl_offset`.
use vstd::prelude::*;
use vstd::string::StringExecFns;
use vstd::utf8::valid_utf8;
use vstd::slice::{slice_subrange, slice_to_vec};

use crate::command::{
    byte_len, execute, execution_aborts, executable, lookup, parse_request, quiet, spec_execute,
    spec_parse_request, Outcome, OutcomeView,
};
use crate::resp::{parse_resp_message_checked, spec_resp_message, string_views};
use crate::store::Store;
use crate::text::{
    byte_codes, char_codes, chars_of, decimal, parse_signed, parse_signed_chars, parse_unsigned,
    parse_unsigned_bytes, push_decimal, push_signed_decimal, signed_decimal, str_from_utf8,
};

verus! {

// ---------------------------------------------------------------------------
// Turning a streamed message back into request text
// ---------------------------------------------------------------------------

/// One string as a bulk string: `$<byte length>\r\n<s>\r\n`.
pub open spec fn bulk_piece(s: Seq<char>) -> Seq<char> {
    "$"@ + decimal(byte_len(s)) + "\r\n"@ + s + "\r\n"@
}

/// The bulk strings of `args`, one after another.
pub open spec fn encode_args(args: Seq<Seq<char>>) -> Seq<char>
    decreases args.len(),
{
    if args.len() == 0 {
        Seq::empty()
    } else {
        encode_args(args.drop_last()) + bulk_piece(args.last())
    }
}

/// The request text for the strings `args`: an array header and a bulk
/// string for each.
pub open spec fn command_text(args: Seq<Seq<char>>) -> Seq<char> {
    "*"@ + decimal(args.len()) + "\r\n"@ + encode_args(args)
}

/// Appends one string as a bulk string.
fn push_bulk_piece(out: &mut String, a: &str)
    ensures
        final(out)@ == old(out)@ + bulk_piece(a@),
{
    out.append("$");
    push_decimal(out, a.len() as u64);
    out.append("\r\n");
    out.append(a);
    out.append("\r\n");
    assert(final(out)@ =~= old(out)@ + bulk_piece(a@));
}

/// Writes the strings of a streamed message as request text.
pub fn build_command_text(args: &Vec<String>) -> (res: String)
    ensures
        res@ == command_text(string_views(args@)),
{
    let ghost views = string_views(args@);
    let mut out = "*".to_owned();
    push_decimal(&mut out, args.len() as u64);
    out.append("\r\n");
    let ghost header = out@;
    assert(encode_args(views.take(0)) =~= Seq::<char>::empty());
    assert(out@ =~= header + encode_args(views.take(0)));
    let mut i: usize = 0;
    while i < args.len()
        invariant
            i <= args@.len(),
            views == string_views(args@),
            header == "*"@ + decimal(args@.len() as nat) + "\r\n"@,
            out@ == header + encode_args(views.take(i as int)),
        decreases args@.len() - i,
    {
        let ghost before = out@;
        push_bulk_piece(&mut out, args[i].as_str());
        assert(views.take(i + 1).drop_last() =~= views.take(i as int));
        assert(views.take(i + 1).last() == args@[i as int]@);
        assert(encode_args(views.take(i + 1)) == encode_args(views.take(i as int)) + bulk_piece(
            args@[i as int]@,
        ));
        assert(out@ =~= header + encode_args(views.take(i + 1)));
        i = i + 1;
    }
    assert(views.take(args@.len() as int) =~= views);
    out
}

// ---------------------------------------------------------------------------
// The link
// ---------------------------------------------------------------------------

/// The first index `i >= from` with `s[i] == '\r'` and `s[i + 1] == '\n'`.
pub open spec fn find_crlf_bytes(s: Seq<u8>, from: int) -> Option<int>
    decreases s.len() - from,
{
    if from < 0 || from + 1 >= s.len() {
        None
    } else if s[from] == 13 && s[from + 1] == 10 {
        Some(from)
    } else {
        find_crlf_bytes(s, from + 1)
    }
}

/// A found `\r\n` lies in range.
pub proof fn lemma_find_crlf_bytes(s: Seq<u8>, from: int)
    requires
        0 <= from,
    ensures
        find_crlf_bytes(s, from) matches Some(i) ==> from <= i && i + 1 < s.len() && s[i] == 13,
    decreases s.len() - from,
{
    if from + 1 < s.len() && !(s[from] == 13 && s[from + 1] == 10) {
        lemma_find_crlf_bytes(s, from + 1);
    }
}

/// What one step over the link's buffer did.
#[derive(Debug, PartialEq, Eq)]
pub enum Step {
    /// The buffer holds no complete unit: wait for more bytes.
    Wait,
    /// A byte before the snapshot was dropped.
    SkippedByte,
    /// The snapshot, of the given length, was skipped.
    SnapshotSkipped { length: usize },
    /// A message was read (and carried out, where it held strings); the
    /// outcome is for the master's connection, and `processed` is the
    /// number of bytes counted for it.
    Message { outcome: Outcome, processed: usize },
}

/// A step, with its outcome as a view.
pub enum StepView {
    Wait,
    SkippedByte,
    SnapshotSkipped(nat),
    Message(OutcomeView, nat),
}

impl View for Step {
    type V = StepView;

    open spec fn view(&self) -> StepView {
        match self {
            Step::Wait => StepView::Wait,
            Step::SkippedByte => StepView::SkippedByte,
            Step::SnapshotSkipped { length } => StepView::SnapshotSkipped(*length as nat),
            Step::Message { outcome, processed } => StepView::Message(outcome@, *processed as nat),
        }
    }
}

/// One step over the buffer `buf` (with `rdb` telling whether the snapshot
/// has been skipped) against `store` at time `now`: the buffer, the flag and
/// the store after it, and what it did. `None` where the step aborts: a
/// snapshot header whose length is not a `usize` or overflows, a message
/// that the reader cannot take apart, or a command that aborts.
pub open spec fn spec_step(buf: Seq<u8>, rdb: bool, store: Map<Seq<char>, Seq<char>>, now: int) -> Option<
    (Seq<u8>, bool, Map<Seq<char>, Seq<char>>, StepView),
> {
    if buf.len() == 0 {
        Some((buf, rdb, store, StepView::Wait))
    } else if !rdb {
        if buf[0] == 36 {
            match find_crlf_bytes(buf, 0) {
                None => Some((buf, false, store, StepView::Wait)),
                Some(end) => {
                    let header = buf.subrange(1, end);
                    if !valid_utf8(header) {
                        None
                    } else {
                        match parse_unsigned(byte_codes(header), usize::MAX as int) {
                            None => None,
                            Some(len) => if end + 4 + len > usize::MAX {
                                None
                            } else if buf.len() >= end + 4 + len {
                                Some(
                                    (
                                        buf.subrange(end + 4 + len, buf.len() as int),
                                        true,
                                        store,
                                        StepView::SnapshotSkipped(len as nat),
                                    ),
                                )
                            } else {
                                Some((buf, false, store, StepView::Wait))
                            },
                        }
                    }
                },
            }
        } else {
            Some((buf.drop_first(), false, store, StepView::SkippedByte))
        }
    } else {
        match spec_resp_message(buf) {
            None => None,
            Some(Err(_)) => Some((buf, true, store, StepView::Wait)),
            Some(Ok((args, off, processed))) => {
                let rest = buf.subrange(off, buf.len() as int);
                if args.len() == 0 {
                    Some((rest, true, store, StepView::Message(quiet(), processed as nat)))
                } else {
                    let cmd = spec_parse_request(command_text(args));
                    if !executable(store, cmd, now) {
                        None
                    } else {
                        let (after, outcome) = spec_execute(store, cmd, now);
                        Some((rest, true, after, StepView::Message(outcome, processed as nat)))
                    }
                }
            },
        }
    }
}

/// The replication offset after counting `processed` more bytes: `None`
/// where the stored offset (2 where none is stored) is not an `i64`, or the
/// sum overflows one.
pub open spec fn spec_advance_offset(store: Map<Seq<char>, Seq<char>>, processed: usize) -> Option<
    Map<Seq<char>, Seq<char>>,
> {
    let current = match lookup(store, "master_repl_offset"@) {
        Some(o) => o,
        None => "2"@,
    };
    match parse_signed(char_codes(current), i64::MIN as int, i64::MAX as int) {
        None => None,
        Some(o) => {
            let n = o + (processed as i64) as int;
            if i64::MIN <= n <= i64::MAX {
                Some(store.insert("master_repl_offset"@, signed_decimal(n)))
            } else {
                None
            }
        },
    }
}

/// The replica's end of the link: the bytes received and not yet used, and
/// whether the snapshot has been skipped.
pub struct ReplicaLink {
    buffer: Vec<u8>,
    snapshot_skipped: bool,
}

impl ReplicaLink {
    /// The bytes received and not yet used.
    pub closed spec fn pending(&self) -> Seq<u8> {
        self.buffer@
    }

    /// Whether the snapshot has been skipped.
    pub closed spec fn past_snapshot(&self) -> bool {
        self.snapshot_skipped
    }

    /// A link on which nothing has been received.
    pub fn new() -> (res: ReplicaLink)
        ensures
            res.pending() == Seq::<u8>::empty(),
            !res.past_snapshot(),
    {
        ReplicaLink { buffer: Vec::new(), snapshot_skipped: false }
    }

    /// The number of received bytes waiting.
    pub fn pending_len(&self) -> (res: usize)
        ensures
            res == self.pending().len(),
    {
        self.buffer.len()
    }

    /// Whether no received bytes are waiting.
    pub fn is_drained(&self) -> (res: bool)
        ensures
            res == (self.pending().len() == 0),
    {
        self.buffer.len() == 0
    }

    /// Adds received bytes to the end of the buffer.
    pub fn receive(&mut self, chunk: &[u8])
        ensures
            final(self).pending() == old(self).pending() + chunk@,
            final(self).past_snapshot() == old(self).past_snapshot(),
    {
        let mut i: usize = 0;
        while i < chunk.len()
            invariant
                i <= chunk@.len(),
                self.buffer@ == old(self).pending() + chunk@.take(i as int),
                self.snapshot_skipped == old(self).past_snapshot(),
            decreases chunk@.len() - i,
        {
            self.buffer.push(chunk[i]);
            assert(chunk@.take(i + 1) =~= chunk@.take(i as int).push(chunk@[i as int]));
            i = i + 1;
        }
        assert(chunk@.take(chunk@.len() as int) =~= chunk@);
    }

    /// Takes one step over the buffer, as `spec_step` says; where the step
    /// aborts, gives `None` and changes nothing.
    pub fn try_step(&mut self, store: &mut Store, now: u64) -> (res: Option<Step>)
        requires
            old(self).pending().len() <= isize::MAX,
        ensures
            res is None <==> spec_step(
                old(self).pending(),
                old(self).past_snapshot(),
                old(store)@,
                now as int,
            ) is None,
            res is None ==> *final(self) == *old(self) && final(store)@ == old(store)@,
            res matches Some(s) ==> spec_step(
                old(self).pending(),
                old(self).past_snapshot(),
                old(store)@,
                now as int,
            ) == Some((final(self).pending(), final(self).past_snapshot(), final(store)@, s@)),
    {
        let ghost buf = self.buffer@;
        if self.buffer.len() == 0 {
            return Some(Step::Wait);
        }
        if !self.snapshot_skipped {
            if self.buffer[0] == 36u8 {
                let end = match find_crlf_in(&self.buffer) {
                    None => return Some(Step::Wait),
                    Some(end) => end,
                };
                proof {
                    lemma_find_crlf_bytes(buf, 0);
                }
                let header = slice_subrange(self.buffer.as_slice(), 1, end);
                if str_from_utf8(header).is_none() {
                    return None;
                }
                let len = match parse_unsigned_bytes(self.buffer.as_slice(), 1, end, usize::MAX as u64) {
                    None => return None,
                    Some(len) => len as usize,
                };
                if len > usize::MAX - 4 || end > usize::MAX - 4 - len {
                    return None;
                }
                let total = end + 4 + len;
                if self.buffer.len() >= total {
                    let rest = slice_to_vec(slice_subrange(self.buffer.as_slice(), total, self.buffer.len()));
                    self.buffer = rest;
                    self.snapshot_skipped = true;
                    Some(Step::SnapshotSkipped { length: len })
                } else {
                    Some(Step::Wait)
                }
            } else {
                self.buffer.remove(0);
                assert(self.buffer@ =~= buf.drop_first());
                Some(Step::SkippedByte)
            }
        } else {
            let parsed = parse_resp_message_checked(self.buffer.as_slice());
            match parsed {
                None => None,
                Some(Err(_)) => Some(Step::Wait),
                Some(Ok((args, rest, processed))) => {
                    let rest_vec = slice_to_vec(rest);
                    if args.len() == 0 {
                        self.buffer = rest_vec;
                        let outcome = Outcome {
                            reply: None,
                            await_answer: false,
                            replicate: None,
                            start_transfer: false,
                        };
                        return Some(Step::Message { outcome, processed });
                    }
                    let text = build_command_text(&args);
                    proof {
                        reveal_strlit("*");
                    }
                    assert(text@.len() > 0);
                    let cmd = parse_request(text.as_str());
                    if execution_aborts(store, &cmd, now) {
                        return None;
                    }
                    let outcome = execute(store, cmd, now);
                    self.buffer = rest_vec;
                    Some(Step::Message { outcome, processed })
                },
            }
        }
    }

    /// Takes one step over the buffer, as `spec_step` says, where that step
    /// does not abort.
    pub fn step(&mut self, store: &mut Store, now: u64) -> (res: Step)
        requires
            old(self).pending().len() <= isize::MAX,
            spec_step(old(self).pending(), old(self).past_snapshot(), old(store)@, now as int)
                is Some,
        ensures
            spec_step(old(self).pending(), old(self).past_snapshot(), old(store)@, now as int)
                == Some((final(self).pending(), final(self).past_snapshot(), final(store)@, res@)),
    {
        match self.try_step(store, now) {
            Some(s) => s,
            None => Step::Wait,
        }
    }
}

/// The first index of a `\r\n` in `s`.
fn find_crlf_in(s: &Vec<u8>) -> (res: Option<usize>)
    ensures
        res == match find_crlf_bytes(s@, 0) {
            Some(i) => Some(i as usize),
            None => None::<usize>,
        },
{
    let mut i: usize = 0;
    while i < s.len() && s.len() - i > 1
        invariant
            i <= s@.len(),
            find_crlf_bytes(s@, 0) == find_crlf_bytes(s@, i as int),
        decreases s@.len() - i,
    {
        if s[i] == 13u8 && s[i + 1] == 10u8 {
            return Some(i);
        }
        i = i + 1;
    }
    None
}

/// Counts `processed` more bytes in the store's replication offset; where
/// the stored offset is not an `i64` or the sum overflows one, gives `false`
/// and changes nothing.
pub fn try_advance_offset(store: &mut Store, processed: usize) -> (res: bool)
    ensures
        res == spec_advance_offset(old(store)@, processed) is Some,
        res ==> final(store)@ == spec_advance_offset(old(store)@, processed)->0,
        !res ==> final(store)@ == old(store)@,
{
    let key = "master_repl_offset".to_owned();
    let current = match store.get(&key) {
        Some(o) => o,
        None => "2".to_owned(),
    };
    let chars = chars_of(current.as_str());
    assert(chars@.subrange(0, chars@.len() as int) =~= current@);
    let o = match parse_signed_chars(chars.as_slice(), 0, chars.len(), i64::MIN, i64::MAX) {
        None => return false,
        Some(o) => o,
    };
    let p = processed as i64;
    let sum: i128 = o as i128 + p as i128;
    if sum < i64::MIN as i128 || sum > i64::MAX as i128 {
        return false;
    }
    let mut text = String::new();
    push_signed_decimal(&mut text, sum as i64);
    assert(text@ =~= signed_decimal(sum as int));
    store.insert(key, text);
    true
}

/// Counts `processed` more bytes in the store's replication offset.
pub fn advance_offset(store: &mut Store, processed: usize)
    requires
        spec_advance_offset(old(store)@, processed) is Some,
    ensures
        final(store)@ == spec_advance_offset(old(store)@, processed)->0,
{
    let _ = try_advance_offset(store, processed);
}

} // verus!
