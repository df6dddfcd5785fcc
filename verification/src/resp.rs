//! Reading the RESP messages that a master streams to its replica: bulk
//! strings (`$<len>\r\n<data>\r\n`) and arrays of them (`*<n>\r\n...`).
//!
//! A bulk string's header is read up to its first `\r`, and the two bytes
//! after a header or after the data are skipped without being looked at; the
//! empty bulk string `$-1\r\n` counts one byte more than it takes. Where a buffer would make the reader
//! index past its end, the spec functions give `None`; the readers are
//! only called where that does not happen, and the `_checked` variants
//! report it.
use vstd::prelude::*;
use vstd::utf8::*;
use vstd::slice::slice_subrange;

use crate::text::{
    byte_codes, parse_signed, parse_signed_bytes, parse_unsigned, parse_unsigned_bytes, str_from_utf8,
    utf8_to_string,
};

verus! {

/// Why a RESP message could not be read.
#[derive(Debug, Clone, Copy, PartialEq, Eq)]
pub enum RespError {
    /// A bulk string header has no `\r` after its `$`.
    IncompleteBulkString,
    /// A length, or the data of a bulk string, is not UTF-8.
    InvalidUtf8,
    /// A length is not a number of its type.
    InvalidNumber,
    /// A bulk string length below -1.
    InvalidBulkLength,
    /// Fewer bytes than a bulk string's length and terminator.
    IncompleteBulkData,
    /// The buffer holds nothing but line breaks.
    EmptyBuffer,
    /// An array header has no `\r`.
    IncompleteArray,
    /// The message starts with neither `*` nor `$`.
    UnexpectedFormat,
}

/// A value read from a buffer: the value, the offset at which the rest of
/// the buffer begins, and the number of bytes the reader counts as processed.
pub type ReadResult<T> = Result<(T, int, int), RespError>;

/// The first index `i >= from` with `s[i] == x`.
pub open spec fn find_byte(s: Seq<u8>, from: int, x: u8) -> Option<int>
    decreases s.len() - from,
{
    if from < 0 || from >= s.len() {
        None
    } else if s[from] == x {
        Some(from)
    } else {
        find_byte(s, from + 1, x)
    }
}

/// A found index lies in range, holds `x`, and nothing before it from
/// `from` on does.
pub proof fn lemma_find_byte(s: Seq<u8>, from: int, x: u8)
    requires
        0 <= from,
    ensures
        find_byte(s, from, x) matches Some(j) ==> from <= j < s.len() && s[j] == x,
        find_byte(s, from, x) matches Some(j) ==> forall|k: int| from <= k < j ==> s[k] != x,
        find_byte(s, from, x) is None ==> forall|k: int| from <= k < s.len() ==> s[k] != x,
    decreases s.len() - from,
{
    if from < s.len() && s[from] != x {
        lemma_find_byte(s, from + 1, x);
    }
}

/// The first index at or after `i` that does not begin a `\r\n` pair, moving
/// by pairs.
pub open spec fn skip_line_breaks(b: Seq<u8>, i: int) -> int
    decreases b.len() - i,
{
    if 0 <= i && i + 2 <= b.len() && b[i] == 13 && b[i + 1] == 10 {
        skip_line_breaks(b, i + 2)
    } else {
        i
    }
}

/// Skipping line breaks moves forward by whole pairs and stays in the buffer.
pub proof fn lemma_skip_line_breaks(b: Seq<u8>, i: int)
    requires
        0 <= i <= b.len(),
    ensures
        i <= skip_line_breaks(b, i) <= b.len(),
        (skip_line_breaks(b, i) - i) % 2 == 0,
    decreases b.len() - i,
{
    if i + 2 <= b.len() && b[i] == 13 && b[i + 1] == 10 {
        lemma_skip_line_breaks(b, i + 2);
    }
}

/// Reading one bulk string from the start of `b` (`None` where the reader
/// would index past the buffer).
pub open spec fn spec_bulk_string(b: Seq<u8>) -> Option<ReadResult<Seq<char>>> {
    if b.len() == 0 {
        None
    } else {
        match find_byte(b, 1, 13) {
            None => Some(Err(RespError::IncompleteBulkString)),
            Some(j) => {
                let header = b.subrange(1, j);
                if !valid_utf8(header) {
                    Some(Err(RespError::InvalidUtf8))
                } else {
                    match parse_signed(byte_codes(header), i64::MIN as int, i64::MAX as int) {
                        None => Some(Err(RespError::InvalidNumber)),
                        Some(len) => if len == -1 {
                            if j + 2 <= b.len() {
                                Some(Ok((Seq::<char>::empty(), j + 2, j + 3)))
                            } else {
                                None
                            }
                        } else if len >= 0 {
                            let end = j + 2 + len;
                            if b.len() >= end + 2 {
                                let data = b.subrange(j + 2, end);
                                if valid_utf8(data) {
                                    Some(Ok((decode_utf8(data), end + 2, end + 2)))
                                } else {
                                    Some(Err(RespError::InvalidUtf8))
                                }
                            } else {
                                Some(Err(RespError::IncompleteBulkData))
                            }
                        } else {
                            Some(Err(RespError::InvalidBulkLength))
                        },
                    }
                }
            },
        }
    }
}

/// What a successful bulk string read consumes: at least three bytes, never
/// past the buffer, and it counts at most twice what it consumes.
pub proof fn lemma_bulk_string_bounds(b: Seq<u8>)
    ensures
        spec_bulk_string(b) matches Some(Ok((s, off, n))) ==> 3 <= off <= b.len() && off <= n
            <= 2 * off,
{
    if b.len() > 0 {
        lemma_find_byte(b, 1, 13);
    }
}

/// Prepends what was read so far to the result of reading on.
pub open spec fn prepend_read(
    items: Seq<Seq<char>>,
    counted: int,
    r: Option<ReadResult<Seq<Seq<char>>>>,
) -> Option<ReadResult<Seq<Seq<char>>>> {
    match r {
        Some(Ok((rest, off, n))) => Some(Ok((items + rest, off, counted + n))),
        other => other,
    }
}

/// Reading `count` bulk strings one after another from offset `q`.
pub open spec fn spec_bulk_run(b: Seq<u8>, q: int, count: nat) -> Option<
    ReadResult<Seq<Seq<char>>>,
>
    decreases count,
{
    if count == 0 {
        Some(Ok((Seq::empty(), q, 0)))
    } else {
        match spec_bulk_string(b.subrange(q, b.len() as int)) {
            None => None,
            Some(Err(e)) => Some(Err(e)),
            Some(Ok((s, off, n))) => prepend_read(
                seq![s],
                n,
                spec_bulk_run(b, q + off, (count - 1) as nat),
            ),
        }
    }
}

/// Reading bulk strings from offset `q` for as long as one starts there,
/// skipping the line breaks after each.
pub open spec fn spec_bulk_sequence(b: Seq<u8>, q: int) -> Option<ReadResult<Seq<Seq<char>>>>
    decreases b.len() - q,
{
    if 0 <= q < b.len() && b[q] == 36 {
        match spec_bulk_string(b.subrange(q, b.len() as int)) {
            None => None,
            Some(Err(e)) => Some(Err(e)),
            Some(Ok((s, off, n))) => if off > 0 && q + off <= b.len() {
                let q2 = skip_line_breaks(b, q + off);
                proof {
                    lemma_skip_line_breaks(b, q + off);
                }
                prepend_read(seq![s], n + (q2 - (q + off)), spec_bulk_sequence(b, q2))
            } else {
                None
            },
        }
    } else {
        Some(Ok((Seq::empty(), q, 0)))
    }
}

/// Reading one RESP message from the start of `b`: the strings it holds,
/// the offset of what follows it, and the bytes counted as processed.
pub open spec fn spec_resp_message(b: Seq<u8>) -> Option<ReadResult<Seq<Seq<char>>>> {
    let p = skip_line_breaks(b, 0);
    if p >= b.len() {
        Some(Err(RespError::EmptyBuffer))
    } else if b[p] == 42 {
        match find_byte(b, p, 13) {
            None => Some(Err(RespError::IncompleteArray)),
            Some(j) => {
                let header = b.subrange(p + 1, j);
                if !valid_utf8(header) {
                    Some(Err(RespError::InvalidUtf8))
                } else {
                    match parse_unsigned(byte_codes(header), usize::MAX as int) {
                        None => Some(Err(RespError::InvalidNumber)),
                        Some(count) => if j + 2 > b.len() {
                            None
                        } else {
                            prepend_read(Seq::empty(), j + 2, spec_bulk_run(b, j + 2, count as nat))
                        },
                    }
                }
            },
        }
    } else if b[p] == 36 {
        prepend_read(Seq::empty(), p, spec_bulk_sequence(b, p))
    } else {
        Some(Err(RespError::UnexpectedFormat))
    }
}

/// The character views of a list of strings.
pub open spec fn string_views(v: Seq<String>) -> Seq<Seq<char>> {
    v.map_values(|s: String| s@)
}

/// `parse_bulk_string`'s result agrees with a spec result read from `b`.
pub open spec fn bulk_agrees(
    b: Seq<u8>,
    res: Result<(String, &[u8], usize), RespError>,
    spec: ReadResult<Seq<char>>,
) -> bool {
    match spec {
        Ok((s, off, n)) => res matches Ok((s2, rest, n2)) && s2@ == s && rest@ == b.subrange(
            off,
            b.len() as int,
        ) && n2 == n,
        Err(e) => res == Err::<(String, &[u8], usize), RespError>(e),
    }
}

/// `parse_resp_message`'s result agrees with a spec result read from `b`.
pub open spec fn message_agrees(
    b: Seq<u8>,
    res: Result<(Vec<String>, &[u8], usize), RespError>,
    spec: ReadResult<Seq<Seq<char>>>,
) -> bool {
    match spec {
        Ok((l, off, n)) => res matches Ok((l2, rest, n2)) && string_views(l2@) == l && rest@
            == b.subrange(off, b.len() as int) && n2 == n,
        Err(e) => res == Err::<(Vec<String>, &[u8], usize), RespError>(e),
    }
}

/// The first index `i >= from` with `s[i] == x`.
fn find_byte_from(s: &[u8], from: usize, x: u8) -> (res: Option<usize>)
    requires
        from <= s@.len(),
    ensures
        res == match find_byte(s@, from as int, x) {
            Some(j) => Some(j as usize),
            None => None::<usize>,
        },
{
    let mut i = from;
    while i < s.len()
        invariant
            from <= i <= s@.len(),
            find_byte(s@, from as int, x) == find_byte(s@, i as int, x),
        decreases s@.len() - i,
    {
        if s[i] == x {
            return Some(i);
        }
        i = i + 1;
    }
    None
}

/// Reads one bulk string from the start of `buffer`; `None` where the reader
/// would index past the buffer.
pub fn parse_bulk_string_checked(buffer: &[u8]) -> (res: Option<Result<(String, &[u8], usize), RespError>>)
    requires
        buffer@.len() <= isize::MAX,
    ensures
        res is None <==> spec_bulk_string(buffer@) is None,
        res matches Some(r) ==> bulk_agrees(buffer@, r, spec_bulk_string(buffer@)->0),
{
    let ghost b = buffer@;
    if buffer.len() == 0 {
        return None;
    }
    let j = match find_byte_from(buffer, 1, 13) {
        None => return Some(Err(RespError::IncompleteBulkString)),
        Some(j) => j,
    };
    proof {
        lemma_find_byte(b, 1, 13);
    }
    let header = slice_subrange(buffer, 1, j);
    if str_from_utf8(header).is_none() {
        return Some(Err(RespError::InvalidUtf8));
    }
    let len = match parse_signed_bytes(buffer, 1, j, i64::MIN, i64::MAX) {
        None => return Some(Err(RespError::InvalidNumber)),
        Some(len) => len,
    };
    if len == -1 {
        if j + 2 <= buffer.len() {
            let rest = slice_subrange(buffer, j + 2, buffer.len());
            return Some(Ok((String::new(), rest, j + 3)));
        } else {
            return None;
        }
    } else if len >= 0 {
        let end_wide: u128 = j as u128 + 2 + len as u128;
        if buffer.len() as u128 >= end_wide + 2 {
            let end = end_wide as usize;
            let data = slice_subrange(buffer, j + 2, end);
            match utf8_to_string(data) {
                Some(s) => {
                    let rest = slice_subrange(buffer, end + 2, buffer.len());
                    Some(Ok((s, rest, end + 2)))
                },
                None => Some(Err(RespError::InvalidUtf8)),
            }
        } else {
            Some(Err(RespError::IncompleteBulkData))
        }
    } else {
        Some(Err(RespError::InvalidBulkLength))
    }
}

/// Reads one bulk string (`$<len>\r\n<data>\r\n`, or `$-1\r\n` for the empty
/// string) from the start of `buffer`: its data, the rest of the buffer, and
/// the number of bytes counted as processed.
pub fn parse_bulk_string(buffer: &[u8]) -> (res: Result<(String, &[u8], usize), RespError>)
    requires
        buffer@.len() <= isize::MAX,
        spec_bulk_string(buffer@) is Some,
    ensures
        bulk_agrees(buffer@, res, spec_bulk_string(buffer@)->0),
{
    match parse_bulk_string_checked(buffer) {
        Some(r) => r,
        None => Err(RespError::IncompleteBulkString),
    }
}

/// Reads `count` bulk strings from `buffer[q..]`.
fn parse_bulk_run(buffer: &[u8], q: usize, count: usize) -> (res: Option<
    Result<(Vec<String>, usize, usize), RespError>,
>)
    requires
        buffer@.len() <= isize::MAX,
        q <= buffer@.len(),
    ensures
        res is None <==> spec_bulk_run(buffer@, q as int, count as nat) is None,
        res matches Some(r) ==> match spec_bulk_run(buffer@, q as int, count as nat)->0 {
            Ok((l, off, n)) => r matches Ok((l2, off2, n2)) && string_views(l2@) == l && off2
                == off && n2 == n,
            Err(e) => r == Err::<(Vec<String>, usize, usize), RespError>(e),
        },
        res matches Some(Ok((l, off, n))) ==> q <= off <= buffer@.len() && n <= 2 * (off - q),
{
    let ghost b = buffer@;
    let mut items: Vec<String> = Vec::new();
    let mut pos = q;
    let mut counted: usize = 0;
    let mut k: usize = 0;
    while k < count
        invariant
            b == buffer@,
            b.len() <= isize::MAX,
            q <= pos <= b.len(),
            k <= count,
            counted <= 2 * (pos - q),
            spec_bulk_run(b, q as int, count as nat) == prepend_read(
                string_views(items@),
                counted as int,
                spec_bulk_run(b, pos as int, (count - k) as nat),
            ),
        decreases count - k,
    {
        let tail = slice_subrange(buffer, pos, buffer.len());
        proof {
            lemma_bulk_string_bounds(tail@);
        }
        match parse_bulk_string_checked(tail) {
            None => {
                return None;
            },
            Some(Err(e)) => {
                return Some(Err(e));
            },
            Some(Ok((s, rest, n))) => {
                let ghost off = (tail@.len() - rest@.len()) as int;
                let ghost before = spec_bulk_run(b, pos + off, (count - k - 1) as nat);
                assert(string_views(items@.push(s)) =~= string_views(items@) + seq![s@]);
                assert(forall|x: Seq<Seq<char>>| (string_views(items@) + seq![s@]) + x
                    =~= string_views(items@) + (seq![s@] + x));
                items.push(s);
                pos = pos + (tail.len() - rest.len());
                counted = counted + n;
                k = k + 1;
            },
        }
    }
    assert(string_views(items@) + Seq::<Seq<char>>::empty() =~= string_views(items@));
    Some(Ok((items, pos, counted)))
}

/// Reads bulk strings from `buffer[q..]` for as long as one starts there,
/// skipping the line breaks after each.
fn parse_bulk_sequence(buffer: &[u8], q: usize) -> (res: Option<
    Result<(Vec<String>, usize, usize), RespError>,
>)
    requires
        buffer@.len() <= isize::MAX,
        q <= buffer@.len(),
    ensures
        res is None <==> spec_bulk_sequence(buffer@, q as int) is None,
        res matches Some(r) ==> match spec_bulk_sequence(buffer@, q as int)->0 {
            Ok((l, off, n)) => r matches Ok((l2, off2, n2)) && string_views(l2@) == l && off2
                == off && n2 == n,
            Err(e) => r == Err::<(Vec<String>, usize, usize), RespError>(e),
        },
        res matches Some(Ok((l, off, n))) ==> q <= off <= buffer@.len() && n <= 2 * (off - q),
{
    let ghost b = buffer@;
    let mut items: Vec<String> = Vec::new();
    let mut pos = q;
    let mut counted: usize = 0;
    while pos < buffer.len() && buffer[pos] == 36u8
        invariant
            b == buffer@,
            b.len() <= isize::MAX,
            q <= pos <= b.len(),
            counted <= 2 * (pos - q),
            spec_bulk_sequence(b, q as int) == prepend_read(
                string_views(items@),
                counted as int,
                spec_bulk_sequence(b, pos as int),
            ),
        decreases b.len() - pos,
    {
        let tail = slice_subrange(buffer, pos, buffer.len());
        proof {
            lemma_bulk_string_bounds(tail@);
        }
        match parse_bulk_string_checked(tail) {
            None => {
                return None;
            },
            Some(Err(e)) => {
                return Some(Err(e));
            },
            Some(Ok((s, rest, n))) => {
                let after = pos + (tail.len() - rest.len());
                let next = skip_breaks_from(buffer, after);
                proof {
                    lemma_skip_line_breaks(b, after as int);
                }
                assert(string_views(items@.push(s)) =~= string_views(items@) + seq![s@]);
                assert(forall|x: Seq<Seq<char>>| (string_views(items@) + seq![s@]) + x
                    =~= string_views(items@) + (seq![s@] + x));
                items.push(s);
                counted = counted + n + (next - after);
                pos = next;
            },
        }
    }
    assert(string_views(items@) + Seq::<Seq<char>>::empty() =~= string_views(items@));
    Some(Ok((items, pos, counted)))
}

/// Skips `\r\n` pairs from offset `i`.
fn skip_breaks_from(buffer: &[u8], i: usize) -> (res: usize)
    requires
        i <= buffer@.len(),
    ensures
        res == skip_line_breaks(buffer@, i as int),
{
    let mut p = i;
    while buffer.len() - p >= 2 && buffer[p] == 13u8 && buffer[p + 1] == 10u8
        invariant
            i <= p <= buffer@.len(),
            skip_line_breaks(buffer@, i as int) == skip_line_breaks(buffer@, p as int),
        decreases buffer@.len() - p,
    {
        p = p + 2;
    }
    p
}

/// Reads one RESP message from the start of `buffer`; `None` where the
/// reader would index past the buffer.
pub fn parse_resp_message_checked(buffer: &[u8]) -> (res: Option<
    Result<(Vec<String>, &[u8], usize), RespError>,
>)
    requires
        buffer@.len() <= isize::MAX,
    ensures
        res is None <==> spec_resp_message(buffer@) is None,
        res matches Some(r) ==> message_agrees(buffer@, r, spec_resp_message(buffer@)->0),
{
    let ghost b = buffer@;
    let p = skip_breaks_from(buffer, 0);
    proof {
        lemma_skip_line_breaks(b, 0);
    }
    if p >= buffer.len() {
        return Some(Err(RespError::EmptyBuffer));
    }
    if buffer[p] == 42u8 {
        let j = match find_byte_from(buffer, p, 13) {
            None => return Some(Err(RespError::IncompleteArray)),
            Some(j) => j,
        };
        proof {
            lemma_find_byte(b, p as int, 13);
        }
        let header = slice_subrange(buffer, p + 1, j);
        if str_from_utf8(header).is_none() {
            return Some(Err(RespError::InvalidUtf8));
        }
        let count = match parse_unsigned_bytes(buffer, p + 1, j, usize::MAX as u64) {
            None => return Some(Err(RespError::InvalidNumber)),
            Some(c) => c as usize,
        };
        if j + 2 > buffer.len() {
            return None;
        }
        match parse_bulk_run(buffer, j + 2, count) {
            None => None,
            Some(Err(e)) => Some(Err(e)),
            Some(Ok((items, off, n))) => {
                assert(Seq::<Seq<char>>::empty() + string_views(items@) =~= string_views(items@));
                let rest = slice_subrange(buffer, off, buffer.len());
                Some(Ok((items, rest, j + 2 + n)))
            },
        }
    } else if buffer[p] == 36u8 {
        match parse_bulk_sequence(buffer, p) {
            None => None,
            Some(Err(e)) => Some(Err(e)),
            Some(Ok((items, off, n))) => {
                assert(Seq::<Seq<char>>::empty() + string_views(items@) =~= string_views(items@));
                let rest = slice_subrange(buffer, off, buffer.len());
                Some(Ok((items, rest, p + n)))
            },
        }
    } else {
        Some(Err(RespError::UnexpectedFormat))
    }
}

/// Reads one RESP message from the start of `buffer`: an array of bulk
/// strings (`*<n>\r\n` and `n` bulk strings) or a run of bulk strings, after
/// any leading line breaks. Gives the strings, the rest of the buffer, and
/// the number of bytes counted as processed.
pub fn parse_resp_message(buffer: &[u8]) -> (res: Result<(Vec<String>, &[u8], usize), RespError>)
    requires
        buffer@.len() <= isize::MAX,
        spec_resp_message(buffer@) is Some,
    ensures
        message_agrees(buffer@, res, spec_resp_message(buffer@)->0),
{
    match parse_resp_message_checked(buffer) {
        Some(r) => r,
        None => Err(RespError::EmptyBuffer),
    }
}

} // verus!
