//! What the master sends after `+FULLRESYNC`: the snapshot, kept on disk as
//! hex text, decoded and sent as `$<len>\r\n` and the snapshot's bytes.
use vstd::prelude::*;

use crate::text::{decimal, push_decimal};

verus! {

/// The error type of `hex::decode`.
#[verifier::external_type_specification]
#[verifier::external_body]
pub struct ExFromHexError(hex::FromHexError);

/// The value of a hex digit (`0-9`, `a-f`, `A-F`).
pub open spec fn hex_digit_value(c: u8) -> Option<int> {
    if 48 <= c <= 57 {
        Some(c - 48)
    } else if 65 <= c <= 70 {
        Some(c - 55)
    } else if 97 <= c <= 102 {
        Some(c - 87)
    } else {
        None
    }
}

/// `s` is hex text: an even number of hex digits.
pub open spec fn is_hex_text(s: Seq<u8>) -> bool {
    s.len() % 2 == 0 && forall|i: int| 0 <= i < s.len() ==> (#[trigger] hex_digit_value(s[i])) is Some
}

/// The bytes that hex text spells, two digits to a byte, high digit first.
pub open spec fn hex_bytes(s: Seq<u8>) -> Seq<u8> {
    Seq::new(
        s.len() / 2,
        |i: int| (16 * hex_digit_value(s[2 * i])->0 + hex_digit_value(s[2 * i + 1])->0) as u8,
    )
}

/// `hex::decode`: succeeds exactly on hex text (an even number of digits,
/// upper or lower case), and then gives the bytes it spells. Which error it
/// gives otherwise is not stated.
#[verifier::external_body]
fn hex_decode(data: &[u8]) -> (res: Result<Vec<u8>, hex::FromHexError>)
    ensures
        res is Ok <==> is_hex_text(data@),
        res matches Ok(v) ==> v@ == hex_bytes(data@),
{
    hex::decode(data)
}

/// Why the snapshot cannot be sent.
#[derive(Debug, Clone, Copy, PartialEq, Eq)]
pub enum TransferError {
    /// The snapshot file is not hex text.
    NotHex,
}

/// The snapshot to send: its header, `$<len>\r\n`, and its bytes.
#[derive(Debug, PartialEq, Eq)]
pub struct SnapshotTransfer {
    pub header: String,
    pub data: Vec<u8>,
}

/// The header sent before a snapshot of `len` bytes.
pub open spec fn snapshot_header(len: nat) -> Seq<char> {
    "$"@ + decimal(len) + "\r\n"@
}

/// Decodes the snapshot file's hex text into what is sent to a replica.
pub fn snapshot_transfer(file_contents: &[u8]) -> (res: Result<SnapshotTransfer, TransferError>)
    ensures
        res is Ok <==> is_hex_text(file_contents@),
        res matches Ok(t) ==> t.data@ == hex_bytes(file_contents@) && t.header@ == snapshot_header(
            hex_bytes(file_contents@).len(),
        ),
{
    match hex_decode(file_contents) {
        Err(_) => Err(TransferError::NotHex),
        Ok(data) => {
            let mut header = "$".to_owned();
            push_decimal(&mut header, data.len() as u64);
            vstd::string::StringExecFns::append(&mut header, "\r\n");
            Ok(SnapshotTransfer { header, data })
        },
    }
}

} // verus!
