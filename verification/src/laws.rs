//! Properties that hold across the library's operations.
use vstd::prelude::*;

use crate::command::{
    bulk, executable, find_crlf, is_replica, lookup, nil, quiet, readable, set_message,
    spec_execute, stored_expiry, stored_value, with_expiry, CommandView, OutcomeView,
};
use crate::command::{after_first, byte_len, element, spec_number_of_elements};
use crate::lines::{lemma_next_newline, lines_from, next_newline, spec_lines};
use crate::replica::{bulk_piece, command_text, encode_args, spec_advance_offset, spec_step, StepView};
use crate::command::{spec_parse_request, reply_only, ack_reply, uppercase, lines_after};
use crate::resp::{
    find_byte, lemma_bulk_string_bounds, skip_line_breaks, spec_bulk_run, spec_bulk_sequence,
    spec_bulk_string, spec_resp_message, RespError,
};
use vstd::utf8::{encode_scalar, encode_utf8, encode_utf8_decode_utf8, encode_utf8_valid_utf8, valid_utf8};
use crate::text::{
    byte_codes, char_codes, decimal, is_ascii_text, lemma_parse_decimal, lemma_parse_signed_decimal, parse_signed,
    parse_unsigned, signed_decimal,
};

verus! {

/// `v` holds no `\r\n`.
pub open spec fn has_no_crlf(v: Seq<char>) -> bool {
    forall|i: int| 0 <= i && i + 1 < v.len() ==> !(#[trigger] v[i] == '\r' && v[i + 1] == '\n')
}

/// In a text that has no `\r\n` from `from` on before `stop`, where one
/// starts at `stop`, the search from `from` finds `stop`.
proof fn lemma_find_crlf_at(s: Seq<char>, from: int, stop: int)
    requires
        0 <= from <= stop,
        stop + 1 < s.len(),
        s[stop] == '\r' && s[stop + 1] == '\n',
        forall|i: int| from <= i < stop ==> !(#[trigger] s[i] == '\r' && s[i + 1] == '\n'),
    ensures
        find_crlf(s, from) == stop,
    decreases stop - from,
{
    if from < stop {
        lemma_find_crlf_at(s, from + 1, stop);
    }
}

/// In a text with no `\r\n` from `from` on, the search finds none.
proof fn lemma_find_crlf_none(s: Seq<char>, from: int)
    requires
        0 <= from,
        forall|i: int| from <= i && i + 1 < s.len() ==> !(#[trigger] s[i] == '\r' && s[i + 1] == '\n'),
    ensures
        find_crlf(s, from) == s.len(),
    decreases s.len() - from,
{
    if from + 1 < s.len() {
        lemma_find_crlf_none(s, from + 1);
    }
}

/// A value without `\r\n` is stored as itself, with no expiry part.
proof fn lemma_plain_value(v: Seq<char>)
    requires
        has_no_crlf(v),
    ensures
        stored_value(v) == v,
        stored_expiry(v).len() == 0,
        readable(v),
{
    lemma_find_crlf_none(v, 0);
    assert(v.subrange(0, v.len() as int) =~= v);
}

/// A value stored with an expiry splits back into the value and the time.
proof fn lemma_expiring_value(v: Seq<char>, at: nat)
    requires
        has_no_crlf(v),
    ensures
        stored_value(with_expiry(v, at as int)) == v,
        stored_expiry(with_expiry(v, at as int)) == decimal(at),
{
    reveal_strlit("\r\n");
    let full = with_expiry(v, at as int);
    let n = v.len() as int;
    assert(full =~= v + seq!['\r', '\n'] + decimal(at));
    assert(full[n] == '\r' && full[n + 1] == '\n');
    assert forall|i: int| 0 <= i < n implies !(#[trigger] full[i] == '\r' && full[i + 1] == '\n') by {
        if i + 1 < n {
            assert(full[i] == v[i] && full[i + 1] == v[i + 1]);
        } else {
            assert(full[i + 1] == '\r');
        }
    }
    lemma_find_crlf_at(full, 0, n);
    assert(full.subrange(0, n) =~= v);
    crate::text::lemma_decimal_digits(at);
    assert forall|i: int| n + 2 <= i && i + 1 < full.len() implies !(#[trigger] full[i] == '\r'
        && full[i + 1] == '\n') by {
        let k = i - n - 2;
        assert(full[i] == decimal(at)[k]);
        assert(char_codes(decimal(at))[k] == (decimal(at)[k] as u32) as int);
        assert(crate::text::is_digit_code(char_codes(decimal(at))[k]));
        assert(('\r' as u32) == 13);
    }
    lemma_find_crlf_none(full, n + 2);
    assert(full.subrange(n + 2, full.len() as int) =~= decimal(at));
}

/// A `GET` after a plain `SET` of the same key answers with the value that
/// was set, at any later time.
pub proof fn law_get_after_set(
    store: Map<Seq<char>, Seq<char>>,
    key: Seq<char>,
    value: Seq<char>,
    now: int,
    later: int,
)
    requires
        has_no_crlf(value),
    ensures
        ({
            let after = spec_execute(store, CommandView::SetValue(key, value, None), now).0;
            &&& executable(after, CommandView::Get(key), later)
            &&& spec_execute(after, CommandView::Get(key), later).1.reply == Some(bulk(value))
        }),
{
    lemma_plain_value(value);
    let after = spec_execute(store, CommandView::SetValue(key, value, None), now).0;
    assert(lookup(after, key) == Some(value));
}

/// A `GET` after `SET ... PX <d>` at time `now` answers with the value up to
/// time `now + d`, and with nothing after it.
pub proof fn law_get_after_set_with_expiry(
    store: Map<Seq<char>, Seq<char>>,
    key: Seq<char>,
    value: Seq<char>,
    millis: Seq<char>,
    d: int,
    now: int,
    later: int,
)
    requires
        has_no_crlf(value),
        parse_unsigned(char_codes(millis), u64::MAX as int) == Some(d),
        0 <= now,
        now + d <= u64::MAX,
    ensures
        executable(store, CommandView::SetValue(key, value, Some(millis)), now),
        ({
            let after = spec_execute(store, CommandView::SetValue(key, value, Some(millis)), now).0;
            &&& executable(after, CommandView::Get(key), later)
            &&& spec_execute(after, CommandView::Get(key), later).1.reply == Some(
                if later > now + d {
                    nil()
                } else {
                    bulk(value)
                },
            )
        }),
{
    let at = (now + d) as nat;
    lemma_expiring_value(value, at);
    lemma_parse_decimal(at, u64::MAX as int);
    crate::text::lemma_decimal_digits(at);
    let after = spec_execute(store, CommandView::SetValue(key, value, Some(millis)), now).0;
    assert(lookup(after, key) == Some(with_expiry(value, now + d)));
}

/// A `GET` of a key that holds nothing answers with the nil bulk string.
pub proof fn law_get_missing(store: Map<Seq<char>, Seq<char>>, key: Seq<char>, now: int)
    requires
        !store.contains_key(key),
    ensures
        executable(store, CommandView::Get(key), now),
        spec_execute(store, CommandView::Get(key), now) == (store, OutcomeView {
            reply: Some(nil()),
            await_answer: false,
            replicate: None,
            start_transfer: false,
        }),
{
}

/// A replica stores what `SET` says but answers nothing and passes nothing
/// on; a master answers `+OK` and passes the `SET` on to its replicas.
pub proof fn law_set_replies_only_on_master(
    store: Map<Seq<char>, Seq<char>>,
    key: Seq<char>,
    value: Seq<char>,
    now: int,
)
    ensures
        ({
            let (after, out) = spec_execute(store, CommandView::SetValue(key, value, None), now);
            &&& after == store.insert(key, value)
            &&& is_replica(store) ==> out == quiet()
            &&& !is_replica(store) ==> out.reply == Some("+OK\r\n"@) && out.replicate == Some(
                set_message(key, value),
            )
        }),
{
}

/// Counting processed bytes adds them to the stored replication offset,
/// which starts at 2 where none is stored; the new offset reads back as
/// that sum.
pub proof fn law_offset_accumulates(store: Map<Seq<char>, Seq<char>>, processed: usize)
    requires
        spec_advance_offset(store, processed) is Some,
    ensures
        ({
            let current = match lookup(store, "master_repl_offset"@) {
                Some(o) => o,
                None => "2"@,
            };
            let after = spec_advance_offset(store, processed)->0;
            &&& after.contains_key("master_repl_offset"@)
            &&& parse_signed(char_codes(after["master_repl_offset"@]), i64::MIN as int, i64::MAX as int)
                == Some(
                parse_signed(char_codes(current), i64::MIN as int, i64::MAX as int)->0 + (
                processed as i64) as int,
            )
        }),
{
    let current = match lookup(store, "master_repl_offset"@) {
        Some(o) => o,
        None => "2"@,
    };
    let o = parse_signed(char_codes(current), i64::MIN as int, i64::MAX as int)->0;
    lemma_parse_signed_decimal(o + (processed as i64) as int, i64::MIN as int, i64::MAX as int);
}

/// `REPLCONF GETACK` answers with the stored replication offset (`0` where
/// none is stored), and changes nothing.
pub proof fn law_getack_reports_offset(
    store: Map<Seq<char>, Seq<char>>,
    value: Seq<char>,
    now: int,
)
    ensures
        spec_execute(store, CommandView::Replconf("GETACK"@, value), now).0 == store,
        spec_execute(store, CommandView::Replconf("GETACK"@, value), now).1.reply == Some(
            crate::command::ack_reply(
                match lookup(store, "master_repl_offset"@) {
                    Some(o) => o,
                    None => "0"@,
                },
            ),
        ),
{
}

/// Once the snapshot has been skipped, the link stays past it.
pub proof fn law_snapshot_skipped_once(
    buf: Seq<u8>,
    store: Map<Seq<char>, Seq<char>>,
    now: int,
)
    requires
        spec_step(buf, true, store, now) is Some,
    ensures
        (spec_step(buf, true, store, now)->0).1,
{
}

} // verus!

verus! {

// ---------------------------------------------------------------------------
// What the master streams, the replica reads back
// ---------------------------------------------------------------------------

/// The UTF-8 encoding of one ASCII character is its code.
proof fn lemma_encode_ascii_char(c: char)
    requires
        (c as u32) < 128,
    ensures
        encode_utf8(seq![c]) == seq![(c as u32) as u8],
{
    let v = c as u32;
    assert(v < 128 ==> (v & 0x7f) == v) by (bit_vector);
    assert(seq![c].drop_first() =~= Seq::<char>::empty());
    assert(encode_utf8(seq![c]) == encode_scalar(v) + encode_utf8(Seq::<char>::empty()));
    assert(encode_scalar(v) =~= seq![v as u8]);
}

/// Encoding distributes over concatenation.
proof fn lemma_encode_concat(a: Seq<char>, b: Seq<char>)
    ensures
        encode_utf8(a + b) == encode_utf8(a) + encode_utf8(b),
    decreases a.len(),
{
    if a.len() == 0 {
        assert(a + b =~= b);
        assert(encode_utf8(a) + encode_utf8(b) =~= encode_utf8(b));
    } else {
        assert((a + b).drop_first() =~= a.drop_first() + b);
        assert((a + b)[0] == a[0]);
        lemma_encode_concat(a.drop_first(), b);
        assert(encode_utf8(a + b) =~= encode_utf8(a) + encode_utf8(b));
    }
}

/// ASCII text encodes byte for byte.
proof fn lemma_encode_ascii(s: Seq<char>)
    requires
        is_ascii_text(s),
    ensures
        encode_utf8(s).len() == s.len(),
        forall|i: int| 0 <= i < s.len() ==> #[trigger] encode_utf8(s)[i] == (s[i] as u32) as u8,
    decreases s.len(),
{
    if s.len() > 0 {
        assert(s =~= seq![s[0]] + s.drop_first());
        lemma_encode_concat(seq![s[0]], s.drop_first());
        lemma_encode_ascii_char(s[0]);
        assert(is_ascii_text(s.drop_first()));
        lemma_encode_ascii(s.drop_first());
        assert forall|i: int| 0 <= i < s.len() implies #[trigger] encode_utf8(s)[i] == (
        s[i] as u32) as u8 by {
            if i > 0 {
                assert(encode_utf8(s)[i] == encode_utf8(s.drop_first())[i - 1]);
                assert(s.drop_first()[i - 1] == s[i]);
            }
        }
    }
}

/// A decimal rendering is ASCII digits, and its bytes read back as the
/// number.
proof fn lemma_decimal_bytes(n: nat)
    ensures
        is_ascii_text(decimal(n)),
        encode_utf8(decimal(n)).len() == decimal(n).len(),
        byte_codes(encode_utf8(decimal(n))) == char_codes(decimal(n)),
        forall|i: int| 0 <= i < decimal(n).len() ==> 48 <= #[trigger] encode_utf8(decimal(n))[i] <= 57,
        valid_utf8(encode_utf8(decimal(n))),
        decimal(n).len() > 0,
{
    crate::text::lemma_decimal_digits(n);
    let d = decimal(n);
    assert forall|i: int| 0 <= i < d.len() implies (#[trigger] d[i] as u32) < 128 by {
        assert(crate::text::is_digit_code(char_codes(d)[i]));
    }
    lemma_encode_ascii(d);
    assert forall|i: int| 0 <= i < d.len() implies 48 <= #[trigger] encode_utf8(d)[i] <= 57 by {
        assert(crate::text::is_digit_code(char_codes(d)[i]));
    }
    assert(byte_codes(encode_utf8(d)) =~= char_codes(d));
    encode_utf8_valid_utf8(d);
}

/// `find_byte` stops at the first `x` from `from` on.
proof fn lemma_find_byte_at(s: Seq<u8>, from: int, k: int, x: u8)
    requires
        0 <= from <= k < s.len(),
        s[k] == x,
        forall|i: int| from <= i < k ==> s[i] != x,
    ensures
        find_byte(s, from, x) == Some(k),
    decreases k - from,
{
    if from < k {
        lemma_find_byte_at(s, from + 1, k, x);
    }
}

/// The bytes of a bulk string: `$`, the length, `\r\n`, the data, `\r\n`.
proof fn lemma_bulk_piece_bytes(a: Seq<char>)
    requires
        encode_utf8(a).len() <= isize::MAX,
    ensures
        encode_utf8(bulk_piece(a)) == seq![36u8] + encode_utf8(decimal(encode_utf8(a).len()))
            + seq![13u8, 10u8] + encode_utf8(a) + seq![13u8, 10u8],
        byte_len(a) == encode_utf8(a).len(),
{
    reveal_strlit("$");
    reveal_strlit("\r\n");
    let dl = decimal(byte_len(a));
    assert("$"@ =~= seq!['$']);
    assert("\r\n"@ =~= seq!['\r', '\n']);
    lemma_encode_ascii_char('$');
    assert(is_ascii_text(seq!['\r', '\n']));
    lemma_encode_ascii(seq!['\r', '\n']);
    assert(encode_utf8(seq!['\r', '\n']) =~= seq![13u8, 10u8]);
    lemma_encode_concat(seq!['$'], dl);
    lemma_encode_concat(seq!['$'] + dl, seq!['\r', '\n']);
    lemma_encode_concat(seq!['$'] + dl + seq!['\r', '\n'], a);
    lemma_encode_concat(seq!['$'] + dl + seq!['\r', '\n'] + a, seq!['\r', '\n']);
}

/// A bulk string written for `a` (`$<byte length>\r\n<a>\r\n`), followed
/// by any bytes, is read back as `a`: the rest of the buffer is what
/// follows it, and the bytes counted are the bytes it takes, that is the
/// byte length of `a`, the digits of that length, and five more.
pub proof fn law_bulk_string_round_trip(a: Seq<char>, rest: Seq<u8>)
    requires
        encode_utf8(a).len() <= isize::MAX,
    ensures
        ({
            let p = encode_utf8(bulk_piece(a));
            &&& spec_bulk_string(p + rest) == Some(
                Ok::<(Seq<char>, int, int), RespError>((a, p.len() as int, p.len() as int)),
            )
            &&& (p + rest).subrange(p.len() as int, (p + rest).len() as int) == rest
            &&& p.len() == byte_len(a) + decimal(byte_len(a)).len() + 5
        }),
{
    lemma_bulk_piece_bytes(a);
    let bl = encode_utf8(a).len();
    let bli = bl as int;
    let dl = encode_utf8(decimal(bl));
    let av = encode_utf8(a);
    lemma_decimal_bytes(bl);
    let p = encode_utf8(bulk_piece(a));
    let b = p + rest;
    let j = (1 + dl.len()) as int;
    assert(b[0] == 36u8);
    assert(b[j] == 13u8);
    assert forall|i: int| 1 <= i < j implies b[i] != 13u8 by {
        assert(b[i] == dl[i - 1]);
    }
    lemma_find_byte_at(b, 1, j, 13u8);
    assert(b.subrange(1, j) =~= dl);
    lemma_parse_signed_decimal(bl as int, i64::MIN as int, i64::MAX as int);
    assert(signed_decimal(bl as int) == decimal(bl));
    assert(b.subrange(j + 2, j + 2 + bli) =~= av);
    encode_utf8_valid_utf8(a);
    encode_utf8_decode_utf8(a);
    assert(b.subrange(p.len() as int, b.len() as int) =~= rest);
}

/// The bulk strings of `args` encode one after another, first to last.
proof fn lemma_encode_args_front(args: Seq<Seq<char>>)
    requires
        args.len() > 0,
    ensures
        encode_args(args) == bulk_piece(args[0]) + encode_args(args.drop_first()),
    decreases args.len(),
{
    if args.len() == 1 {
        assert(args.drop_last() =~= Seq::<Seq<char>>::empty());
        assert(args.drop_first() =~= Seq::<Seq<char>>::empty());
        assert(encode_args(args) =~= bulk_piece(args[0]) + encode_args(args.drop_first()));
    } else {
        lemma_encode_args_front(args.drop_last());
        assert(args.drop_last().drop_first() =~= args.drop_first().drop_last());
        assert(args.drop_first().last() == args.last());
        assert(encode_args(args) =~= bulk_piece(args[0]) + encode_args(args.drop_first()));
    }
}

/// Reading `args.len()` bulk strings where their encoding starts gives
/// `args` back and stops right after it.
proof fn lemma_read_bulk_run(b: Seq<u8>, q: int, args: Seq<Seq<char>>)
    requires
        0 <= q,
        q + encode_utf8(encode_args(args)).len() <= b.len(),
        b.subrange(q, q + encode_utf8(encode_args(args)).len()) == encode_utf8(encode_args(args)),
        forall|i: int| 0 <= i < args.len() ==> (#[trigger] encode_utf8(args[i])).len() <= isize::MAX,
    ensures
        ({
            let e = encode_utf8(encode_args(args)).len() as int;
            spec_bulk_run(b, q, args.len()) == Some(
                Ok::<(Seq<Seq<char>>, int, int), RespError>((args, q + e, e)),
            )
        }),
    decreases args.len(),
{
    if args.len() == 0 {
        assert(encode_args(args) =~= Seq::<char>::empty());
        assert(args =~= Seq::<Seq<char>>::empty());
    } else {
        lemma_encode_args_front(args);
        let p = encode_utf8(bulk_piece(args[0]));
        let r = encode_utf8(encode_args(args.drop_first()));
        let e = encode_utf8(encode_args(args));
        lemma_encode_concat(bulk_piece(args[0]), encode_args(args.drop_first()));
        assert(e == p + r);
        let t = b.subrange(q + e.len(), b.len() as int);
        law_bulk_string_round_trip(args[0], r + t);
        assert(b.subrange(q, b.len() as int) =~= p + (r + t)) by {
            assert forall|i: int| 0 <= i < b.len() - q implies #[trigger] b.subrange(
                q,
                b.len() as int,
            )[i] == (p + (r + t))[i] by {
                if i < e.len() {
                    assert(b.subrange(q, q + e.len())[i] == e[i]);
                }
            }
        }
        assert(b.subrange(q + p.len(), q + p.len() + r.len()) =~= r) by {
            assert forall|i: int| 0 <= i < r.len() implies #[trigger] b.subrange(
                q + p.len(),
                q + p.len() + r.len(),
            )[i] == r[i] by {
                assert(b.subrange(q, q + e.len())[p.len() + i] == e[p.len() + i]);
            }
        }
        assert forall|i: int| 0 <= i < args.drop_first().len() implies (#[trigger] encode_utf8(
            args.drop_first()[i],
        )).len() <= isize::MAX by {
            assert(args.drop_first()[i] == args[i + 1]);
        }
        lemma_read_bulk_run(b, q + p.len(), args.drop_first());
        assert(seq![args[0]] + args.drop_first() =~= args);
        assert(spec_bulk_string(b.subrange(q, b.len() as int)) == Some(
            Ok::<(Seq<char>, int, int), RespError>((args[0], p.len() as int, p.len() as int)),
        ));
        assert(args.drop_first().len() == (args.len() - 1) as nat);
    }
}

/// The request text that a list of strings is written as (and so what a
/// master streams for a command), followed by any bytes, is read back by
/// `parse_resp_message` as those strings: the rest of the buffer is what
/// follows the message, and the bytes counted are the message's bytes.
pub proof fn law_resp_message_round_trip(args: Seq<Seq<char>>, tail: Seq<u8>)
    requires
        args.len() <= usize::MAX,
        forall|i: int| 0 <= i < args.len() ==> (#[trigger] encode_utf8(args[i])).len() <= isize::MAX,
    ensures
        ({
            let m = encode_utf8(command_text(args));
            let b = m + tail;
            &&& spec_resp_message(b) == Some(
                Ok::<(Seq<Seq<char>>, int, int), RespError>((args, m.len() as int, m.len() as int)),
            )
            &&& b.subrange(m.len() as int, b.len() as int) == tail
        }),
{
    reveal_strlit("*");
    reveal_strlit("\r\n");
    let n = args.len();
    let d = decimal(n);
    let e = encode_args(args);
    assert("*"@ =~= seq!['*']);
    assert("\r\n"@ =~= seq!['\r', '\n']);
    lemma_encode_ascii_char('*');
    assert(is_ascii_text(seq!['\r', '\n']));
    lemma_encode_ascii(seq!['\r', '\n']);
    assert(encode_utf8(seq!['\r', '\n']) =~= seq![13u8, 10u8]);
    lemma_encode_concat(seq!['*'], d);
    lemma_encode_concat(seq!['*'] + d, seq!['\r', '\n']);
    lemma_encode_concat(seq!['*'] + d + seq!['\r', '\n'], e);
    lemma_decimal_bytes(n);
    let db = encode_utf8(d);
    let eb = encode_utf8(e);
    let m = encode_utf8(command_text(args));
    let b = m + tail;
    assert(m =~= seq![42u8] + db + seq![13u8, 10u8] + eb);
    assert(b[0] == 42u8);
    assert(skip_line_breaks(b, 0) == 0);
    let j = (1 + db.len()) as int;
    assert forall|i: int| 0 <= i < j implies b[i] != 13u8 by {
        if i > 0 {
            assert(b[i] == db[i - 1]);
        }
    }
    assert(b[j] == 13u8);
    lemma_find_byte_at(b, 0, j, 13u8);
    assert(b.subrange(1, j) =~= db);
    lemma_parse_decimal(n, usize::MAX as int);
    assert(b.subrange(j + 2, j + 2 + eb.len()) =~= eb);
    lemma_read_bulk_run(b, j + 2, args);
    assert(Seq::<Seq<char>>::empty() + args =~= args);
    assert(b.subrange(m.len() as int, b.len() as int) =~= tail);
}

} // verus!

verus! {

// ---------------------------------------------------------------------------
// The replica reads a streamed command's strings back, line by line
// ---------------------------------------------------------------------------

/// A replica past the snapshot takes a message that the master streams (the
/// request text of some strings) whole: nothing of it is left over, and all
/// of its bytes are counted as processed.
pub proof fn law_streamed_message_counted(
    args: Seq<Seq<char>>,
    store: Map<Seq<char>, Seq<char>>,
    now: int,
)
    requires
        args.len() <= usize::MAX,
        forall|i: int| 0 <= i < args.len() ==> (#[trigger] encode_utf8(args[i])).len() <= isize::MAX,
    ensures
        ({
            let b = encode_utf8(command_text(args));
            spec_step(b, true, store, now) is Some ==> {
                let r = spec_step(b, true, store, now)->0;
                &&& r.0.len() == 0
                &&& r.1
                &&& r.3 is Message
                &&& r.3->Message_1 == b.len()
            }
        }),
{
    law_resp_message_round_trip(args, Seq::empty());
    let b = encode_utf8(command_text(args));
    assert(b + Seq::<u8>::empty() =~= b);
    lemma_message_nonempty(args);
}

/// `s` holds no line feed.
pub open spec fn has_no_newline(s: Seq<char>) -> bool {
    forall|i: int| 0 <= i < s.len() ==> #[trigger] s[i] != '\n'
}

/// Line feeds are found at the same place after a prefix.
proof fn lemma_next_newline_shift(p: Seq<char>, q: Seq<char>, i: int)
    requires
        0 <= i <= q.len(),
    ensures
        next_newline(p + q, p.len() + i) == p.len() + next_newline(q, i),
    decreases q.len() - i,
{
    if i < q.len() {
        assert((p + q)[p.len() + i] == q[i]);
        lemma_next_newline_shift(p, q, i + 1);
    }
}

/// The lines after a prefix are the lines of what follows it.
proof fn lemma_lines_shift(p: Seq<char>, q: Seq<char>, i: int)
    requires
        0 <= i <= q.len(),
    ensures
        lines_from(p + q, p.len() + i) == lines_from(q, i),
    decreases q.len() - i,
{
    if i < q.len() {
        lemma_next_newline_shift(p, q, i);
        lemma_next_newline(q, i);
        let j = next_newline(q, i);
        if j < q.len() {
            lemma_lines_shift(p, q, j + 1);
            assert((p + q).subrange(p.len() + i, p.len() + j) =~= q.subrange(i, j));
        } else {
            assert((p + q).subrange(p.len() + i, (p + q).len() as int) =~= q.subrange(
                i,
                q.len() as int,
            ));
        }
    }
}

/// A line ended by `\r\n` comes first, without its ending.
proof fn lemma_first_line(x: Seq<char>, rest: Seq<char>)
    requires
        has_no_newline(x),
    ensures
        lines_from(x + seq!['\r', '\n'] + rest, 0) == seq![x] + lines_from(rest, 0),
{
    let s = x + seq!['\r', '\n'] + rest;
    let n = x.len() as int;
    assert(s[n] == '\r' && s[n + 1] == '\n');
    assert forall|k: int| 0 <= k < n + 1 implies s[k] != '\n' by {
        if k < n {
            assert(s[k] == x[k]);
        }
    }
    lemma_next_newline_at(s, 0, n + 1);
    assert(s.subrange(0, n + 1) =~= x.push('\r'));
    assert(x.push('\r').drop_last() =~= x);
    assert(s =~= (x + seq!['\r', '\n']) + rest);
    lemma_lines_shift(x + seq!['\r', '\n'], rest, 0);
}

/// The search for a line feed stops at the first one.
proof fn lemma_next_newline_at(s: Seq<char>, from: int, k: int)
    requires
        0 <= from <= k < s.len(),
        s[k] == '\n',
        forall|i: int| from <= i < k ==> s[i] != '\n',
    ensures
        next_newline(s, from) == k,
    decreases k - from,
{
    if from < k {
        lemma_next_newline_at(s, from + 1, k);
    }
}

/// The length line of a bulk string holds no line feed.
proof fn lemma_header_line(c: char, n: nat)
    requires
        c != '\n',
    ensures
        has_no_newline(seq![c] + decimal(n)),
{
    crate::text::lemma_decimal_digits(n);
    assert forall|i: int| 0 <= i < (seq![c] + decimal(n)).len() implies #[trigger] (seq![c]
        + decimal(n))[i] != '\n' by {
        if i > 0 {
            let k = i - 1;
            assert(crate::text::is_digit_code(char_codes(decimal(n))[k]));
            assert(('\n' as u32) == 10);
        }
    }
}

/// The lines of the bulk strings of `args`: for each, its length line and
/// the string.
pub open spec fn arg_lines(args: Seq<Seq<char>>) -> Seq<Seq<char>>
    decreases args.len(),
{
    if args.len() == 0 {
        Seq::empty()
    } else {
        seq!["$"@ + decimal(byte_len(args[0])), args[0]] + arg_lines(args.drop_first())
    }
}

/// Each string comes right after its length line.
proof fn lemma_arg_lines_index(args: Seq<Seq<char>>, k: int)
    requires
        0 <= k < args.len(),
    ensures
        arg_lines(args).len() == 2 * args.len(),
        arg_lines(args)[2 * k + 1] == args[k],
    decreases args.len(),
{
    if k > 0 {
        lemma_arg_lines_index(args.drop_first(), k - 1);
    } else {
        lemma_arg_lines_len(args.drop_first());
    }
}

/// Two lines for each string.
proof fn lemma_arg_lines_len(args: Seq<Seq<char>>)
    ensures
        arg_lines(args).len() == 2 * args.len(),
    decreases args.len(),
{
    if args.len() > 0 {
        lemma_arg_lines_len(args.drop_first());
    }
}

/// The bulk strings of strings without line feeds split into their lines.
proof fn lemma_encode_args_lines(args: Seq<Seq<char>>)
    requires
        forall|i: int| 0 <= i < args.len() ==> has_no_newline(#[trigger] args[i]),
    ensures
        lines_from(encode_args(args), 0) == arg_lines(args),
    decreases args.len(),
{
    reveal_strlit("$");
    reveal_strlit("\r\n");
    if args.len() == 0 {
        assert(encode_args(args) =~= Seq::<char>::empty());
    } else {
        let a = args[0];
        let rest = args.drop_first();
        assert forall|i: int| 0 <= i < rest.len() implies has_no_newline(#[trigger] rest[i]) by {
            assert(rest[i] == args[i + 1]);
        }
        lemma_encode_args_front(args);
        lemma_encode_args_lines(rest);
        let h = seq!['$'] + decimal(byte_len(a));
        assert("$"@ =~= seq!['$']);
        assert("\r\n"@ =~= seq!['\r', '\n']);
        lemma_header_line('$', byte_len(a));
        let tail = encode_args(rest);
        assert(encode_args(args) =~= h + seq!['\r', '\n'] + (a + seq!['\r', '\n'] + tail));
        lemma_first_line(h, a + seq!['\r', '\n'] + tail);
        lemma_first_line(a, tail);
        assert(seq![h] + (seq![a] + arg_lines(rest)) =~= seq![h, a] + arg_lines(rest));
    }
}

/// The request text written for a streamed message (`build_command_text`)
/// is read line by line into the message's strings: its header announces
/// their number, and the element after each length line is the next
/// string, as `parse_request` takes them.
pub proof fn law_streamed_command_elements(args: Seq<Seq<char>>)
    requires
        args.len() <= i32::MAX,
        forall|i: int| 0 <= i < args.len() ==> has_no_newline(#[trigger] args[i]),
    ensures
        ({
            let lines = spec_lines(command_text(args));
            &&& spec_number_of_elements(element(lines, 0)) == args.len()
            &&& forall|k: int|
                0 <= k ==> #[trigger] element(lines, 2 * k + 2) == if k < args.len() {
                    args[k]
                } else {
                    Seq::<char>::empty()
                }
        }),
{
    reveal_strlit("*");
    reveal_strlit("\r\n");
    let n = args.len();
    let h = seq!['*'] + decimal(n);
    assert("*"@ =~= seq!['*']);
    assert("\r\n"@ =~= seq!['\r', '\n']);
    lemma_header_line('*', n);
    assert(command_text(args) =~= h + seq!['\r', '\n'] + encode_args(args));
    lemma_first_line(h, encode_args(args));
    lemma_encode_args_lines(args);
    lemma_arg_lines_len(args);
    let lines = spec_lines(command_text(args));
    assert(lines == seq![h] + arg_lines(args));
    assert(after_first(h) =~= decimal(n));
    lemma_parse_signed_decimal(n as int, i32::MIN as int, i32::MAX as int);
    assert forall|k: int| 0 <= k implies #[trigger] element(lines, 2 * k + 2) == if k < args.len() {
        args[k]
    } else {
        Seq::<char>::empty()
    } by {
        if k < args.len() {
            lemma_arg_lines_index(args, k);
        }
    }
}

} // verus!

verus! {

// ---------------------------------------------------------------------------
// The store and the link
// ---------------------------------------------------------------------------

/// Only `SET` changes the store; every other command leaves it as it was.
pub proof fn law_only_set_changes_store(store: Map<Seq<char>, Seq<char>>, cmd: CommandView, now: int)
    requires
        !(cmd is SetValue),
    ensures
        spec_execute(store, cmd, now).0 == store,
{
}

/// Before the snapshot has been skipped, the link carries out no command:
/// the store stays as it was.
pub proof fn law_no_commands_before_snapshot(
    buf: Seq<u8>,
    store: Map<Seq<char>, Seq<char>>,
    now: int,
)
    requires
        spec_step(buf, false, store, now) is Some,
    ensures
        (spec_step(buf, false, store, now)->0).2 == store,
        !((spec_step(buf, false, store, now)->0).3 is Message),
{
}

/// Reading bulk strings never moves backwards.
proof fn lemma_bulk_run_advances(b: Seq<u8>, q: int, count: nat)
    requires
        0 <= q <= b.len(),
    ensures
        spec_bulk_run(b, q, count) matches Some(Ok((l, off, n))) ==> q <= off <= b.len(),
    decreases count,
{
    if count > 0 {
        lemma_bulk_string_bounds(b.subrange(q, b.len() as int));
        if let Some(Ok((s, off, n))) = spec_bulk_string(b.subrange(q, b.len() as int)) {
            lemma_bulk_run_advances(b, q + off, (count - 1) as nat);
        }
    }
}

/// A run of bulk strings that starts with one moves past it.
proof fn lemma_bulk_sequence_advances(b: Seq<u8>, q: int)
    requires
        0 <= q <= b.len(),
    ensures
        spec_bulk_sequence(b, q) matches Some(Ok((l, off, n))) ==> q <= off <= b.len() && (q < b.len()
            && b[q] == 36 ==> q < off),
    decreases b.len() - q,
{
    if 0 <= q < b.len() && b[q] == 36 {
        lemma_bulk_string_bounds(b.subrange(q, b.len() as int));
        if let Some(Ok((s, off, n))) = spec_bulk_string(b.subrange(q, b.len() as int)) {
            if off > 0 && q + off <= b.len() {
                crate::resp::lemma_skip_line_breaks(b, q + off);
                lemma_bulk_sequence_advances(b, skip_line_breaks(b, q + off));
            }
        }
    }
}

/// Every step that does not wait for more bytes uses some of the buffer, so
/// stepping until the link waits or its buffer is empty comes to an end.
pub proof fn law_step_progress(
    buf: Seq<u8>,
    past_snapshot: bool,
    store: Map<Seq<char>, Seq<char>>,
    now: int,
)
    requires
        spec_step(buf, past_snapshot, store, now) is Some,
        !((spec_step(buf, past_snapshot, store, now)->0).3 is Wait),
    ensures
        (spec_step(buf, past_snapshot, store, now)->0).0.len() < buf.len(),
{
    if past_snapshot && buf.len() > 0 {
        crate::resp::lemma_skip_line_breaks(buf, 0);
        let p = skip_line_breaks(buf, 0);
        if p < buf.len() {
            if buf[p] == 42 {
                crate::resp::lemma_find_byte(buf, p, 13);
                if let Some(j) = find_byte(buf, p, 13) {
                    if j + 2 <= buf.len() {
                        lemma_bulk_run_advances(
                            buf,
                            j + 2,
                            crate::text::parse_unsigned(
                                byte_codes(buf.subrange(p + 1, j)),
                                usize::MAX as int,
                            )->0 as nat,
                        );
                    }
                }
            } else if buf[p] == 36 {
                lemma_bulk_sequence_advances(buf, p);
            }
        }
    } else if !past_snapshot && buf.len() > 0 && buf[0] == 36 {
        crate::replica::lemma_find_crlf_bytes(buf, 0);
    }
}

} // verus!

verus! {

// ---------------------------------------------------------------------------
// Replicating a SET
// ---------------------------------------------------------------------------

/// A request that the server does not take (an unknown command, or a header
/// that gives no number of elements) is answered with nothing and changes
/// nothing.
pub proof fn law_invalid_request_unanswered(store: Map<Seq<char>, Seq<char>>, now: int)
    ensures
        spec_execute(store, CommandView::Invalid, now) == (store, quiet()),
{
}

/// The message a master sends its replicas for `SET key value` is the
/// request text of the strings `SET`, `key` and `value`.
proof fn lemma_set_message_is_command_text(key: Seq<char>, value: Seq<char>)
    ensures
        set_message(key, value) == command_text(seq!["SET"@, key, value]),
{
    reveal_strlit("SET");
    reveal_strlit("*");
    reveal_strlit("$");
    reveal_strlit("\r\n");
    reveal_strlit("\r\n$");
    reveal_strlit("*3\r\n$3\r\nSET\r\n$");
    let args = seq!["SET"@, key, value];
    assert("SET"@ =~= seq!['S', 'E', 'T']);
    assert(is_ascii_text(seq!['S', 'E', 'T']));
    lemma_encode_ascii(seq!['S', 'E', 'T']);
    assert(decimal(3) =~= seq!['3']);
    assert(byte_len("SET"@) == 3);
    let a1 = seq!["SET"@];
    let a2 = seq!["SET"@, key];
    assert(a1.drop_last() =~= Seq::<Seq<char>>::empty());
    assert(a2.drop_last() =~= a1);
    assert(args.drop_last() =~= a2);
    assert(encode_args(Seq::<Seq<char>>::empty()) == Seq::<char>::empty());
    assert(encode_args(a1) == encode_args(a1.drop_last()) + bulk_piece(a1.last()));
    assert(encode_args(a1) =~= bulk_piece("SET"@));
    assert(encode_args(a2) == encode_args(a2.drop_last()) + bulk_piece(a2.last()));
    assert(encode_args(args) == encode_args(args.drop_last()) + bulk_piece(args.last()));
    assert(encode_args(args) =~= bulk_piece("SET"@) + bulk_piece(key) + bulk_piece(value));
    assert(set_message(key, value) =~= command_text(args));
}

/// What a master passes on for `SET key value` is read by its replica as the
/// strings `SET`, `key` and `value`, to the last byte; and where `key` and
/// `value` hold no line feed, the request text the replica writes from them
/// gives `key` and `value` as the elements that `SET` takes.
pub proof fn law_replicated_set_reads_back(key: Seq<char>, value: Seq<char>)
    requires
        encode_utf8(key).len() <= isize::MAX,
        encode_utf8(value).len() <= isize::MAX,
    ensures
        ({
            let b = encode_utf8(set_message(key, value));
            spec_resp_message(b) == Some(
                Ok::<(Seq<Seq<char>>, int, int), RespError>(
                    (seq!["SET"@, key, value], b.len() as int, b.len() as int),
                ),
            )
        }),
        has_no_newline(key) && has_no_newline(value) ==> ({
            let lines = spec_lines(command_text(seq!["SET"@, key, value]));
            &&& spec_number_of_elements(element(lines, 0)) == 3
            &&& element(lines, 2) == "SET"@
            &&& element(lines, 4) == key
            &&& element(lines, 6) == value
        }),
{
    let args = seq!["SET"@, key, value];
    lemma_set_message_is_command_text(key, value);
    reveal_strlit("SET");
    assert("SET"@ =~= seq!['S', 'E', 'T']);
    assert(is_ascii_text(seq!['S', 'E', 'T']));
    lemma_encode_ascii(seq!['S', 'E', 'T']);
    assert forall|i: int| 0 <= i < args.len() implies (#[trigger] encode_utf8(args[i])).len()
        <= isize::MAX by {
        if i == 0 {
            assert(args[0] == seq!['S', 'E', 'T']);
        }
    }
    law_resp_message_round_trip(args, Seq::empty());
    assert(encode_utf8(set_message(key, value)) + Seq::<u8>::empty() =~= encode_utf8(
        set_message(key, value),
    ));
    if has_no_newline(key) && has_no_newline(value) {
        assert forall|i: int| 0 <= i < args.len() implies has_no_newline(#[trigger] args[i]) by {
            if i == 0 {
                assert(('\n' as u32) == 10);
            }
        }
        law_streamed_command_elements(args);
        let lines = spec_lines(command_text(args));
        assert(element(lines, 2 * 0int + 2) == args[0]);
        assert(element(lines, 2 * 1int + 2) == args[1]);
        assert(element(lines, 2 * 2int + 2) == args[2]);
    }
}

} // verus!

verus! {

// ---------------------------------------------------------------------------
// What a read leaves over, and what it counts
// ---------------------------------------------------------------------------

/// The header of the bulk string at the start of `t` reads as -1 (the empty
/// bulk string `$-1`).
pub open spec fn nil_header(t: Seq<u8>) -> bool {
    match find_byte(t, 1, 13) {
        Some(j) => valid_utf8(t.subrange(1, j)) && parse_signed(
            byte_codes(t.subrange(1, j)),
            i64::MIN as int,
            i64::MAX as int,
        ) == Some(-1),
        None => false,
    }
}

/// One for a bulk string at the start of `t` whose header reads as -1.
pub open spec fn nil_count_one(t: Seq<u8>) -> int {
    if nil_header(t) {
        1
    } else {
        0
    }
}

/// How many of the `count` bulk strings read from offset `q` have a header
/// that reads as -1.
pub open spec fn nils_in_run(b: Seq<u8>, q: int, count: nat) -> int
    decreases count,
{
    if count == 0 {
        0
    } else {
        match spec_bulk_string(b.subrange(q, b.len() as int)) {
            Some(Ok((s, off, n))) => nil_count_one(b.subrange(q, b.len() as int)) + nils_in_run(
                b,
                q + off,
                (count - 1) as nat,
            ),
            _ => 0,
        }
    }
}

/// How many of the bulk strings read one after another from offset `q`
/// have a header that reads as -1.
pub open spec fn nils_in_sequence(b: Seq<u8>, q: int) -> int
    decreases b.len() - q,
{
    if 0 <= q < b.len() && b[q] == 36 {
        match spec_bulk_string(b.subrange(q, b.len() as int)) {
            Some(Ok((s, off, n))) => if off > 0 && q + off <= b.len() {
                let q2 = skip_line_breaks(b, q + off);
                proof {
                    crate::resp::lemma_skip_line_breaks(b, q + off);
                }
                nil_count_one(b.subrange(q, b.len() as int)) + nils_in_sequence(b, q2)
            } else {
                0
            },
            _ => 0,
        }
    } else {
        0
    }
}

/// How many of the bulk strings that reading one message from `b` takes
/// have a header that reads as -1.
pub open spec fn nils_in_message(b: Seq<u8>) -> int {
    let p = skip_line_breaks(b, 0);
    if p >= b.len() {
        0
    } else if b[p] == 42 {
        match find_byte(b, p, 13) {
            Some(j) => match parse_unsigned(byte_codes(b.subrange(p + 1, j)), usize::MAX as int) {
                Some(count) => nils_in_run(b, j + 2, count as nat),
                None => 0,
            },
            None => 0,
        }
    } else {
        nils_in_sequence(b, p)
    }
}

/// A bulk string counts the bytes it takes, and one more where its header
/// reads as -1.
pub proof fn law_bulk_string_count(t: Seq<u8>)
    ensures
        spec_bulk_string(t) matches Some(Ok((s, off, n))) ==> 0 <= off <= t.len() && n == off
            + nil_count_one(t),
{
    lemma_bulk_string_bounds(t);
}

/// Reading bulk strings from `q` counts the bytes taken, plus one for each
/// header read as -1.
proof fn lemma_run_count(b: Seq<u8>, q: int, count: nat)
    requires
        0 <= q <= b.len(),
    ensures
        spec_bulk_run(b, q, count) matches Some(Ok((l, off, n))) ==> q <= off <= b.len() && n == off
            - q + nils_in_run(b, q, count),
    decreases count,
{
    if count > 0 {
        let t = b.subrange(q, b.len() as int);
        law_bulk_string_count(t);
        if let Some(Ok((s, off, n))) = spec_bulk_string(t) {
            lemma_run_count(b, q + off, (count - 1) as nat);
        }
    }
}

/// Reading a run of bulk strings from `q` counts the bytes taken (line
/// breaks skipped included), plus one for each header read as -1.
proof fn lemma_sequence_count(b: Seq<u8>, q: int)
    requires
        0 <= q <= b.len(),
    ensures
        spec_bulk_sequence(b, q) matches Some(Ok((l, off, n))) ==> q <= off <= b.len() && n == off
            - q + nils_in_sequence(b, q),
    decreases b.len() - q,
{
    if 0 <= q < b.len() && b[q] == 36 {
        let t = b.subrange(q, b.len() as int);
        law_bulk_string_count(t);
        if let Some(Ok((s, off, n))) = spec_bulk_string(t) {
            if off > 0 && q + off <= b.len() {
                crate::resp::lemma_skip_line_breaks(b, q + off);
                lemma_sequence_count(b, skip_line_breaks(b, q + off));
            }
        }
    }
}

/// What reading a message leaves over is the end of the buffer, from the
/// offset it gives on; the bytes it counts as processed are the bytes before
/// that offset, plus one for each bulk string whose header reads as -1
/// (`$-1`), so exactly the bytes taken where it read none.
pub proof fn law_message_rest_and_count(b: Seq<u8>)
    ensures
        spec_resp_message(b) matches Some(Ok((l, off, n))) ==> {
            &&& 0 <= off <= b.len()
            &&& b.subrange(0, off) + b.subrange(off, b.len() as int) == b
            &&& n == off + nils_in_message(b)
            &&& nils_in_message(b) == 0 ==> n == off
        },
{
    crate::resp::lemma_skip_line_breaks(b, 0);
    let p = skip_line_breaks(b, 0);
    if p < b.len() {
        if b[p] == 42 {
            crate::resp::lemma_find_byte(b, p, 13);
            if let Some(j) = find_byte(b, p, 13) {
                if j + 2 <= b.len() {
                    if let Some(count) = parse_unsigned(
                        byte_codes(b.subrange(p + 1, j)),
                        usize::MAX as int,
                    ) {
                        lemma_run_count(b, j + 2, count as nat);
                    }
                }
            }
        } else if b[p] == 36 {
            lemma_sequence_count(b, p);
        }
    }
    if let Some(Ok((l, off, n))) = spec_resp_message(b) {
        assert(b.subrange(0, off) + b.subrange(off, b.len() as int) =~= b);
    }
}

} // verus!

verus! {

// ---------------------------------------------------------------------------
// The INFO reply
// ---------------------------------------------------------------------------

/// The text of the `INFO` reply of a server of the given role.
pub open spec fn info_payload(role: Seq<char>) -> Seq<char> {
    "role:"@ + role + "\r\nmaster_replid:8371b4fb1155b71f4a04d3e1bc3e18c4a990aeeb\r\nmaster_repl_offset:0"@
}

/// `s` holds only ASCII characters, so its byte length is its length.
proof fn lemma_ascii_byte_len(s: Seq<char>)
    requires
        is_ascii_text(s),
        s.len() <= u32::MAX,
    ensures
        byte_len(s) == s.len(),
{
    lemma_encode_ascii(s);
}

/// `INFO` answers with its text as a bulk string whose length prefix is the
/// text's byte length (`slave` on a replica, `master` on a master), and
/// changes nothing.
pub proof fn law_info_reply(store: Map<Seq<char>, Seq<char>>, now: int)
    ensures
        spec_execute(store, CommandView::Info, now) == (
            store,
            crate::command::reply_only(
                bulk(
                    info_payload(
                        if is_replica(store) {
                            "slave"@
                        } else {
                            "master"@
                        },
                    ),
                ),
            ),
        ),
{
    reveal_strlit("role:");
    reveal_strlit("slave");
    reveal_strlit("master");
    reveal_strlit("$");
    reveal_strlit("\r\n");
    reveal_strlit("\r\nmaster_replid:8371b4fb1155b71f4a04d3e1bc3e18c4a990aeeb\r\nmaster_repl_offset:0");
    reveal_strlit("$88\r\nrole:slave\r\nmaster_replid:8371b4fb1155b71f4a04d3e1bc3e18c4a990aeeb\r\nmaster_repl_offset:0\r\n");
    reveal_strlit("$89\r\nrole:master\r\nmaster_replid:8371b4fb1155b71f4a04d3e1bc3e18c4a990aeeb\r\nmaster_repl_offset:0\r\n");
    let ps = info_payload("slave"@);
    let pm = info_payload("master"@);
    assert(ps.len() == 88);
    assert(pm.len() == 89);
    assert(is_ascii_text(ps));
    assert(is_ascii_text(pm));
    lemma_ascii_byte_len(ps);
    lemma_ascii_byte_len(pm);
    assert(decimal(8) =~= seq!['8']);
    assert(decimal(9) =~= seq!['9']);
    assert(decimal(88) =~= seq!['8', '8']);
    assert(decimal(89) =~= seq!['8', '9']);
    assert(crate::command::info_replica() =~= bulk(ps));
    assert(crate::command::info_master() =~= bulk(pm));
}

} // verus!

verus! {

// ---------------------------------------------------------------------------
// Streamed commands, in the order they arrive
// ---------------------------------------------------------------------------

/// The message the master streams for `args` is not empty.
proof fn lemma_message_nonempty(args: Seq<Seq<char>>)
    ensures
        encode_utf8(command_text(args)).len() > 0,
{
    reveal_strlit("*");
    assert("*"@ =~= seq!['*']);
    lemma_encode_concat(seq!['*'], decimal(args.len()) + "\r\n"@ + encode_args(args));
    assert(command_text(args) =~= seq!['*'] + (decimal(args.len()) + "\r\n"@ + encode_args(args)));
    lemma_encode_ascii_char('*');
}

/// The strings of each message fit the reader's limits.
pub open spec fn readable_args(args: Seq<Seq<char>>) -> bool {
    &&& args.len() <= usize::MAX
    &&& forall|i: int| 0 <= i < args.len() ==> (#[trigger] encode_utf8(args[i])).len() <= isize::MAX
}

/// Past the snapshot, a step takes the first message of the buffer and
/// leaves what follows it untouched: it carries out the command that the
/// message's strings make (none for a message without strings), counts the
/// message's bytes, and aborts only where that command does.
pub proof fn law_step_takes_first_message(
    args: Seq<Seq<char>>,
    rest: Seq<u8>,
    store: Map<Seq<char>, Seq<char>>,
    now: int,
)
    requires
        readable_args(args),
    ensures
        ({
            let m = encode_utf8(command_text(args));
            let cmd = spec_parse_request(command_text(args));
            spec_step(m + rest, true, store, now) == if args.len() == 0 {
                Some((rest, true, store, StepView::Message(crate::command::quiet(), m.len())))
            } else if executable(store, cmd, now) {
                Some(
                    (
                        rest,
                        true,
                        spec_execute(store, cmd, now).0,
                        StepView::Message(spec_execute(store, cmd, now).1, m.len()),
                    ),
                )
            } else {
                None
            }
        }),
{
    law_resp_message_round_trip(args, rest);
    lemma_message_nonempty(args);
}

/// The bytes streamed for the messages `msgs`, one after another.
pub open spec fn stream_of(msgs: Seq<Seq<Seq<char>>>) -> Seq<u8>
    decreases msgs.len(),
{
    if msgs.len() == 0 {
        Seq::empty()
    } else {
        encode_utf8(command_text(msgs[0])) + stream_of(msgs.drop_first())
    }
}

/// Carrying out the commands of `msgs` one after another, first to last
/// (a message without strings carries out nothing): the store after them,
/// or `None` where one of them aborts.
pub open spec fn apply_in_order(
    store: Map<Seq<char>, Seq<char>>,
    msgs: Seq<Seq<Seq<char>>>,
    now: int,
) -> Option<Map<Seq<char>, Seq<char>>>
    decreases msgs.len(),
{
    if msgs.len() == 0 {
        Some(store)
    } else if msgs[0].len() == 0 {
        apply_in_order(store, msgs.drop_first(), now)
    } else {
        let cmd = spec_parse_request(command_text(msgs[0]));
        if executable(store, cmd, now) {
            apply_in_order(spec_execute(store, cmd, now).0, msgs.drop_first(), now)
        } else {
            None
        }
    }
}

/// Taking `k` steps over the link's buffer: the buffer, the flag and the
/// store after them, or `None` where one aborts.
pub open spec fn spec_steps(
    buf: Seq<u8>,
    rdb: bool,
    store: Map<Seq<char>, Seq<char>>,
    now: int,
    k: nat,
) -> Option<(Seq<u8>, bool, Map<Seq<char>, Seq<char>>)>
    decreases k,
{
    if k == 0 {
        Some((buf, rdb, store))
    } else {
        match spec_step(buf, rdb, store, now) {
            None => None,
            Some((b2, r2, s2, _)) => spec_steps(b2, r2, s2, now, (k - 1) as nat),
        }
    }
}

/// Past the snapshot, the messages that the master streams are carried out
/// one per step, in the order in which they arrive: after one step per
/// message, the store is what carrying out their commands in that order
/// makes of it, and what came after the last message is all that is left.
pub proof fn law_streamed_commands_in_order(
    msgs: Seq<Seq<Seq<char>>>,
    tail: Seq<u8>,
    store: Map<Seq<char>, Seq<char>>,
    now: int,
)
    requires
        forall|k: int| 0 <= k < msgs.len() ==> readable_args(#[trigger] msgs[k]),
    ensures
        spec_steps(stream_of(msgs) + tail, true, store, now, msgs.len()) == match apply_in_order(
            store,
            msgs,
            now,
        ) {
            Some(after) => Some((tail, true, after)),
            None => None,
        },
    decreases msgs.len(),
{
    if msgs.len() == 0 {
        assert(stream_of(msgs) + tail =~= tail);
    } else {
        let m = encode_utf8(command_text(msgs[0]));
        let later = msgs.drop_first();
        assert(readable_args(msgs[0]));
        assert forall|k: int| 0 <= k < later.len() implies readable_args(#[trigger] later[k]) by {
            assert(later[k] == msgs[k + 1]);
        }
        assert(stream_of(msgs) + tail =~= m + (stream_of(later) + tail));
        law_step_takes_first_message(msgs[0], stream_of(later) + tail, store, now);
        let cmd = spec_parse_request(command_text(msgs[0]));
        if msgs[0].len() == 0 {
            law_streamed_commands_in_order(later, tail, store, now);
        } else if executable(store, cmd, now) {
            law_streamed_commands_in_order(later, tail, spec_execute(store, cmd, now).0, now);
        }
    }
}

// ---------------------------------------------------------------------------
// REPLCONF GETACK, then the offset
// ---------------------------------------------------------------------------

/// The strings of the `REPLCONF GETACK *` that a master sends.
pub open spec fn getack_args() -> Seq<Seq<char>> {
    seq!["REPLCONF"@, "GETACK"@, "*"@]
}

/// The request text of `REPLCONF GETACK *`.
proof fn lemma_getack_text()
    ensures
        command_text(getack_args())
            == "*3\r\n$8\r\nREPLCONF\r\n$6\r\nGETACK\r\n$1\r\n*\r\n"@,
{
    reveal_strlit("REPLCONF");
    reveal_strlit("GETACK");
    reveal_strlit("*");
    reveal_strlit("$");
    reveal_strlit("\r\n");
    reveal_strlit("*3\r\n$8\r\nREPLCONF\r\n$6\r\nGETACK\r\n$1\r\n*\r\n");
    let args = getack_args();
    let a1 = seq!["REPLCONF"@];
    let a2 = seq!["REPLCONF"@, "GETACK"@];
    assert(is_ascii_text("REPLCONF"@));
    assert(is_ascii_text("GETACK"@));
    assert(is_ascii_text("*"@));
    lemma_ascii_byte_len("REPLCONF"@);
    lemma_ascii_byte_len("GETACK"@);
    lemma_ascii_byte_len("*"@);
    assert(decimal(8) =~= seq!['8']);
    assert(decimal(6) =~= seq!['6']);
    assert(decimal(1) =~= seq!['1']);
    assert(decimal(3) =~= seq!['3']);
    assert(a1.drop_last() =~= Seq::<Seq<char>>::empty());
    assert(a2.drop_last() =~= a1);
    assert(args.drop_last() =~= a2);
    assert(encode_args(Seq::<Seq<char>>::empty()) == Seq::<char>::empty());
    assert(encode_args(a1) == encode_args(a1.drop_last()) + bulk_piece(a1.last()));
    assert(encode_args(a2) == encode_args(a2.drop_last()) + bulk_piece(a2.last()));
    assert(encode_args(args) == encode_args(args.drop_last()) + bulk_piece(args.last()));
    assert(command_text(args)
        =~= "*3\r\n$8\r\nREPLCONF\r\n$6\r\nGETACK\r\n$1\r\n*\r\n"@);
}

/// The request text of `REPLCONF GETACK *` asks for `REPLCONF GETACK *`.
proof fn lemma_getack_command()
    ensures
        spec_parse_request(command_text(getack_args())) == CommandView::Replconf("GETACK"@, "*"@),
{
    reveal_strlit("REPLCONF");
    reveal_strlit("GETACK");
    reveal_strlit("*");
    reveal_strlit("ECHO");
    reveal_strlit("PING");
    reveal_strlit("SET");
    reveal_strlit("GET");
    reveal_strlit("INFO");
    let args = getack_args();
    assert forall|i: int| 0 <= i < args.len() implies has_no_newline(#[trigger] args[i]) by {
        assert(('\n' as u32) == 10);
    }
    law_streamed_command_elements(args);
    let lines = spec_lines(command_text(args));
    assert(element(lines, 2 * 0int + 2) == args[0]);
    assert(element(lines, 2 * 1int + 2) == args[1]);
    assert(element(lines, 2 * 2int + 2) == args[2]);
    assert(is_ascii_text("REPLCONF"@));
    assert(uppercase("REPLCONF"@) =~= "REPLCONF"@);
    let rest = lines_after(lines, 3);
    assert(rest[1] == lines[4]);
    assert(rest[3] == lines[6]);
}

/// A replica past the snapshot that receives `REPLCONF GETACK *` (the 37
/// bytes a master sends) answers, in that step, with the offset stored
/// before the message (its store unchanged), and only when the message's
/// bytes are then counted does the stored offset grow by 37.
pub proof fn law_getack_then_offset(
    store: Map<Seq<char>, Seq<char>>,
    tail: Seq<u8>,
    now: int,
    offset: int,
)
    requires
        store.contains_key("master_repl_offset"@),
        parse_signed(char_codes(store["master_repl_offset"@]), i64::MIN as int, i64::MAX as int)
            == Some(offset),
        offset + 37 <= i64::MAX,
    ensures
        ({
            let g = encode_utf8(command_text(getack_args()));
            &&& g == encode_utf8("*3\r\n$8\r\nREPLCONF\r\n$6\r\nGETACK\r\n$1\r\n*\r\n"@)
            &&& g.len() == 37
            &&& spec_step(g + tail, true, store, now) == Some(
                (
                    tail,
                    true,
                    store,
                    StepView::Message(reply_only(ack_reply(store["master_repl_offset"@])), 37),
                ),
            )
            &&& spec_advance_offset(store, 37) == Some(
                store.insert("master_repl_offset"@, signed_decimal(offset + 37)),
            )
        }),
{
    reveal_strlit("GETACK");
    reveal_strlit("*3\r\n$8\r\nREPLCONF\r\n$6\r\nGETACK\r\n$1\r\n*\r\n");
    let args = getack_args();
    lemma_getack_text();
    let t = "*3\r\n$8\r\nREPLCONF\r\n$6\r\nGETACK\r\n$1\r\n*\r\n"@;
    assert(t.len() == 37);
    assert(is_ascii_text(t));
    lemma_encode_ascii(t);
    reveal_strlit("REPLCONF");
    reveal_strlit("*");
    assert(is_ascii_text("REPLCONF"@));
    assert(is_ascii_text("GETACK"@));
    assert(is_ascii_text("*"@));
    lemma_encode_ascii("REPLCONF"@);
    lemma_encode_ascii("GETACK"@);
    lemma_encode_ascii("*"@);
    assert forall|i: int| 0 <= i < args.len() implies (#[trigger] encode_utf8(args[i])).len()
        <= isize::MAX by {}
    law_step_takes_first_message(args, tail, store, now);
    lemma_getack_command();
}

} // verus!

verus! {

// ---------------------------------------------------------------------------
// The link over a whole stream: stray bytes, the snapshot, the messages
// ---------------------------------------------------------------------------

/// The bytes of a snapshot as the link takes it: `$`, the decimal length of
/// `payload`, `\r\n`, the payload, and the two bytes after it.
pub open spec fn snapshot_frame(payload: Seq<u8>, trailer: Seq<u8>) -> Seq<u8> {
    seq![36u8] + encode_utf8(decimal(payload.len())) + seq![13u8, 10u8] + payload + trailer
}

/// The search for `\r\n` stops at the first one.
proof fn lemma_find_crlf_bytes_at(s: Seq<u8>, from: int, k: int)
    requires
        0 <= from <= k,
        k + 1 < s.len(),
        s[k] == 13 && s[k + 1] == 10,
        forall|i: int| from <= i < k ==> !(#[trigger] s[i] == 13 && s[i + 1] == 10),
    ensures
        crate::replica::find_crlf_bytes(s, from) == Some(k),
    decreases k - from,
{
    if from < k {
        lemma_find_crlf_bytes_at(s, from + 1, k);
    }
}

/// Before the snapshot, a step over a snapshot frame skips it whole.
proof fn lemma_snapshot_step(
    payload: Seq<u8>,
    trailer: Seq<u8>,
    rest: Seq<u8>,
    store: Map<Seq<char>, Seq<char>>,
    now: int,
)
    requires
        trailer.len() == 2,
        (snapshot_frame(payload, trailer) + rest).len() <= usize::MAX,
    ensures
        spec_step(snapshot_frame(payload, trailer) + rest, false, store, now) == Some(
            (rest, true, store, StepView::SnapshotSkipped(payload.len())),
        ),
{
    let len = payload.len();
    let leni = len as int;
    lemma_decimal_bytes(len);
    let dl = encode_utf8(decimal(len));
    let frame = snapshot_frame(payload, trailer);
    let b = frame + rest;
    let end = (1 + dl.len()) as int;
    assert(frame =~= seq![36u8] + dl + seq![13u8, 10u8] + payload + trailer);
    assert(b[0] == 36u8);
    assert(b[end] == 13u8 && b[end + 1] == 10u8);
    assert forall|i: int| 0 <= i < end implies !(#[trigger] b[i] == 13 && b[i + 1] == 10) by {
        if i > 0 {
            assert(b[i] == dl[i - 1]);
        }
    }
    lemma_find_crlf_bytes_at(b, 0, end);
    assert(b.subrange(1, end) =~= dl);
    lemma_parse_decimal(len, usize::MAX as int);
    assert(frame.len() == end + 4 + leni);
    assert(b.subrange(end + 4 + leni, b.len() as int) =~= rest);
}

/// Before the snapshot, each step drops one byte that is not `$`.
proof fn lemma_drop_stray_bytes(
    junk: Seq<u8>,
    rest: Seq<u8>,
    store: Map<Seq<char>, Seq<char>>,
    now: int,
    k: nat,
)
    requires
        forall|i: int| 0 <= i < junk.len() ==> junk[i] != 36,
        k <= junk.len(),
    ensures
        spec_steps(junk + rest, false, store, now, k) == Some((junk.skip(k as int) + rest, false, store)),
    decreases k,
{
    if k == 0 {
        assert(junk.skip(0) =~= junk);
    } else {
        let j2 = junk.drop_first();
        assert((junk + rest)[0] == junk[0]);
        assert((junk + rest).drop_first() =~= j2 + rest);
        assert forall|i: int| 0 <= i < j2.len() implies j2[i] != 36 by {
            assert(j2[i] == junk[i + 1]);
        }
        lemma_drop_stray_bytes(j2, rest, store, now, (k - 1) as nat);
        assert(j2.skip(k - 1) =~= junk.skip(k as int));
    }
}

/// Taking `a` steps and then `c` more is taking `a + c` steps.
proof fn lemma_steps_split(
    buf: Seq<u8>,
    rdb: bool,
    store: Map<Seq<char>, Seq<char>>,
    now: int,
    a: nat,
    c: nat,
)
    ensures
        spec_steps(buf, rdb, store, now, a + c) == match spec_steps(buf, rdb, store, now, a) {
            Some((b2, r2, s2)) => spec_steps(b2, r2, s2, now, c),
            None => None,
        },
    decreases a,
{
    if a > 0 {
        if let Some((b2, r2, s2, _)) = spec_step(buf, rdb, store, now) {
            lemma_steps_split(b2, r2, s2, now, (a - 1) as nat, c);
            assert((a + c - 1) as nat == (a - 1) as nat + c);
        }
    }
}

/// Before the snapshot, the stray bytes go one per step, the store as it
/// was.
proof fn lemma_stray_prefix(
    junk: Seq<u8>,
    rest: Seq<u8>,
    store: Map<Seq<char>, Seq<char>>,
    now: int,
)
    requires
        forall|i: int| 0 <= i < junk.len() ==> junk[i] != 36,
    ensures
        forall|k: nat| k <= junk.len() ==> #[trigger] spec_steps(junk + rest, false, store, now, k)
            == Some(((junk + rest).subrange(k as int, (junk + rest).len() as int), false, store)),
        spec_steps(junk + rest, false, store, now, junk.len()) == Some((rest, false, store)),
{
    assert forall|k: nat| k <= junk.len() implies #[trigger] spec_steps(
        junk + rest,
        false,
        store,
        now,
        k,
    ) == Some(((junk + rest).subrange(k as int, (junk + rest).len() as int), false, store)) by {
        lemma_drop_stray_bytes(junk, rest, store, now, k);
        assert(junk.skip(k as int) + rest =~= (junk + rest).subrange(
            k as int,
            (junk + rest).len() as int,
        ));
    }
    lemma_drop_stray_bytes(junk, rest, store, now, junk.len());
    assert(junk.skip(junk.len() as int) + rest =~= rest);
}

/// One step over a snapshot frame skips it, the store as it was.
proof fn lemma_snapshot_steps(
    payload: Seq<u8>,
    trailer: Seq<u8>,
    rest: Seq<u8>,
    store: Map<Seq<char>, Seq<char>>,
    now: int,
)
    requires
        trailer.len() == 2,
        (snapshot_frame(payload, trailer) + rest).len() <= usize::MAX,
    ensures
        spec_steps(snapshot_frame(payload, trailer) + rest, false, store, now, 1) == Some(
            (rest, true, store),
        ),
{
    lemma_snapshot_step(payload, trailer, rest, store, now);
    assert(spec_steps(rest, true, store, now, 0) == Some((rest, true, store)));
}

/// Over the whole stream a master sends after the handshake (stray bytes
/// that are not `$`, the snapshot, then messages, then anything): the link
/// drops the stray bytes one per step and carries out nothing meanwhile;
/// the next step skips the snapshot whole, still carrying out nothing; and
/// then one step per message carries out each message's command once, in
/// the order in which the messages arrive, leaving only what followed them.
pub proof fn law_link_over_stream(
    junk: Seq<u8>,
    payload: Seq<u8>,
    trailer: Seq<u8>,
    msgs: Seq<Seq<Seq<char>>>,
    tail: Seq<u8>,
    store: Map<Seq<char>, Seq<char>>,
    now: int,
)
    requires
        forall|i: int| 0 <= i < junk.len() ==> junk[i] != 36,
        trailer.len() == 2,
        forall|k: int| 0 <= k < msgs.len() ==> readable_args(#[trigger] msgs[k]),
        (junk + snapshot_frame(payload, trailer) + stream_of(msgs) + tail).len() <= usize::MAX,
    ensures
        ({
            let b = junk + snapshot_frame(payload, trailer) + stream_of(msgs) + tail;
            &&& forall|k: nat| k <= junk.len() ==> #[trigger] spec_steps(b, false, store, now, k)
                == Some((b.subrange(k as int, b.len() as int), false, store))
            &&& spec_steps(b, false, store, now, junk.len() + 1) == Some(
                (stream_of(msgs) + tail, true, store),
            )
            &&& spec_steps(b, false, store, now, junk.len() + 1 + msgs.len()) == match apply_in_order(
                store,
                msgs,
                now,
            ) {
                Some(after) => Some((tail, true, after)),
                None => None,
            }
        }),
{
    let frame = snapshot_frame(payload, trailer);
    let after_frame = stream_of(msgs) + tail;
    let rest1 = frame + after_frame;
    let b = junk + frame + stream_of(msgs) + tail;
    assert(b =~= junk + rest1);
    lemma_stray_prefix(junk, rest1, store, now);
    lemma_snapshot_steps(payload, trailer, after_frame, store, now);
    lemma_steps_split(b, false, store, now, junk.len(), 1);
    lemma_steps_split(b, false, store, now, junk.len() + 1, msgs.len());
    law_streamed_commands_in_order(msgs, tail, store, now);
}

} // verus!

verus! {

// ---------------------------------------------------------------------------
// What each command answers, on every store
// ---------------------------------------------------------------------------

/// The outcome that sends nothing.
pub open spec fn sends_nothing() -> OutcomeView {
    OutcomeView { reply: None, await_answer: false, replicate: None, start_transfer: false }
}

/// Past the snapshot, where the reader reports an error for the buffer (a
/// message that has not fully arrived, or one it cannot read), the step
/// does not abort: it waits for more bytes, and the buffer, the flag and
/// the store stay as they were.
pub proof fn law_step_waits_on_unreadable_message(
    buf: Seq<u8>,
    store: Map<Seq<char>, Seq<char>>,
    now: int,
)
    requires
        spec_resp_message(buf) matches Some(Err(_)),
    ensures
        spec_step(buf, true, store, now) == Some((buf, true, store, StepView::Wait)),
{
}

/// A bulk string's length prefix is the byte length of its UTF-8 text.
pub proof fn law_bulk_prefix_is_byte_length(s: Seq<char>)
    requires
        encode_utf8(s).len() <= usize::MAX,
    ensures
        bulk(s) == "$"@ + decimal(encode_utf8(s).len()) + "\r\n"@ + s + "\r\n"@,
{
}

/// `PING` answers `+PONG` on every store, master or replica, and changes
/// nothing.
pub proof fn law_ping_answers_pong(store: Map<Seq<char>, Seq<char>>, now: int)
    ensures
        spec_execute(store, CommandView::Ping, now) == (
            store,
            OutcomeView {
                reply: Some("+PONG\r\n"@),
                await_answer: false,
                replicate: None,
                start_transfer: false,
            },
        ),
{
}

/// `ECHO` answers with its message as a bulk string whose length prefix is
/// the message's UTF-8 byte length, waits for an answer after it, and
/// changes nothing, on every store.
pub proof fn law_echo_reply(store: Map<Seq<char>, Seq<char>>, m: Seq<char>, now: int)
    requires
        encode_utf8(m).len() <= usize::MAX,
    ensures
        spec_execute(store, CommandView::Echo(m), now) == (
            store,
            OutcomeView {
                reply: Some("$"@ + decimal(encode_utf8(m).len()) + "\r\n"@ + m + "\r\n"@),
                await_answer: true,
                replicate: None,
                start_transfer: false,
            },
        ),
{
}

/// `SET` stores the value (with its expiry time `now + d` after it where a
/// `PX d` parses); where a `PX` value does not parse it stores nothing and
/// sends nothing. Where it stores, a replica sends nothing at all, and a
/// master answers `+OK` and passes `SET key value` on to its replicas.
pub proof fn law_set_outcome(
    store: Map<Seq<char>, Seq<char>>,
    key: Seq<char>,
    value: Seq<char>,
    expiry: Option<Seq<char>>,
    now: int,
)
    ensures
        ({
            let (after, out) = spec_execute(store, CommandView::SetValue(key, value, expiry), now);
            let parsed = match expiry {
                Some(e) => parse_unsigned(char_codes(e), u64::MAX as int),
                None => None,
            };
            &&& expiry is None ==> after == store.insert(key, value)
            &&& parsed matches Some(d) ==> after == store.insert(
                key,
                value + "\r\n"@ + decimal((now + d) as nat),
            )
            &&& (expiry is Some && parsed is None) ==> after == store && out == sends_nothing()
            &&& (expiry is None || parsed is Some) ==> out == if is_replica(store) {
                sends_nothing()
            } else {
                OutcomeView {
                    reply: Some("+OK\r\n"@),
                    await_answer: false,
                    replicate: Some(set_message(key, value)),
                    start_transfer: false,
                }
            }
        }),
{
}

/// The line at index `i` of the lines after index 3 is the line at `i + 3`.
proof fn lemma_element_after_name(lines: Seq<Seq<char>>, i: int)
    requires
        0 <= i,
    ensures
        element(lines_after(lines, 3), i) == element(lines, i + 3),
{
}

/// A request is read by its header and its command name alone: where the
/// header gives no count of at least zero, or the name (uppercased) is none
/// the server knows, it is invalid; otherwise the name picks the command,
/// whatever the count says, and each argument is the line after its length
/// line (`ECHO`, `GET`, `REPLCONF` and `SET` read theirs from line 4 on;
/// `SET` reads an expiry only where the count is not 2 and its option is
/// `PX`, in any case).
pub proof fn law_request_by_name(text: Seq<char>)
    ensures
        ({
            let lines = spec_lines(text);
            let n = spec_number_of_elements(element(lines, 0));
            let name = uppercase(element(lines, 2));
            let cmd = spec_parse_request(text);
            &&& n < 0 ==> cmd == CommandView::Invalid
            &&& n >= 0 && name == "PING"@ ==> cmd == CommandView::Ping
            &&& n >= 0 && name == "INFO"@ ==> cmd == CommandView::Info
            &&& n >= 0 && name == "PSYNC"@ ==> cmd == CommandView::Psync
            &&& n >= 0 && name == "ECHO"@ ==> cmd == CommandView::Echo(element(lines, 4))
            &&& n >= 0 && name == "GET"@ ==> cmd == CommandView::Get(element(lines, 4))
            &&& n >= 0 && name == "REPLCONF"@ ==> cmd == CommandView::Replconf(
                element(lines, 4),
                element(lines, 6),
            )
            &&& n >= 0 && name == "SET"@ ==> cmd == CommandView::SetValue(
                element(lines, 4),
                element(lines, 6),
                if n != 2 && uppercase(element(lines, 8)) == "PX"@ {
                    Some(element(lines, 10))
                } else {
                    None
                },
            )
            &&& n >= 0 && name != "PING"@ && name != "INFO"@ && name != "PSYNC"@ && name != "ECHO"@
                && name != "GET"@ && name != "REPLCONF"@ && name != "SET"@ ==> cmd
                == CommandView::Invalid
        }),
{
    reveal_strlit("PING");
    reveal_strlit("INFO");
    reveal_strlit("PSYNC");
    reveal_strlit("ECHO");
    reveal_strlit("GET");
    reveal_strlit("REPLCONF");
    reveal_strlit("SET");
    assert("PING"@.len() == 4 && "INFO"@.len() == 4 && "ECHO"@.len() == 4);
    assert("PSYNC"@.len() == 5 && "GET"@.len() == 3 && "SET"@.len() == 3);
    assert("REPLCONF"@.len() == 8);
    assert("PING"@[0] != "ECHO"@[0]);
    assert("INFO"@[0] != "ECHO"@[0] && "INFO"@[0] != "PING"@[0]);
    assert("GET"@[0] != "SET"@[0]);
    let lines = spec_lines(text);
    lemma_element_after_name(lines, 1);
    lemma_element_after_name(lines, 3);
    lemma_element_after_name(lines, 5);
    lemma_element_after_name(lines, 7);
}

} // verus!

verus! {

/// `REPLCONF` with anything but `GETACK` answers `+OK`, and changes
/// nothing, on every store.
pub proof fn law_replconf_other_answers_ok(
    store: Map<Seq<char>, Seq<char>>,
    key: Seq<char>,
    value: Seq<char>,
    now: int,
)
    requires
        key != "GETACK"@,
    ensures
        spec_execute(store, CommandView::Replconf(key, value), now) == (
            store,
            OutcomeView {
                reply: Some("+OK\r\n"@),
                await_answer: false,
                replicate: None,
                start_transfer: false,
            },
        ),
{
}

/// `PSYNC` answers a full resynchronisation and starts the snapshot
/// transfer, and changes nothing, on every store.
pub proof fn law_psync_starts_transfer(store: Map<Seq<char>, Seq<char>>, now: int)
    ensures
        spec_execute(store, CommandView::Psync, now) == (
            store,
            OutcomeView {
                reply: Some("+FULLRESYNC 8371b4fb1155b71f4a04d3e1bc3e18c4a990aeeb 0\r\n"@),
                await_answer: false,
                replicate: None,
                start_transfer: true,
            },
        ),
{
}

} // verus!
