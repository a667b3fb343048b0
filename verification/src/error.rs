//! Errors produced by the engine.

use crate::text::{decimal, hex_char, push_decimal, push_hex_digits};
use vstd::prelude::*;
use vstd::string::StringExecFns;

verus! {

/// `std::io::Error`, carried through unread.
#[verifier::external_type_specification]
#[verifier::external_body]
pub struct ExIoError(std::io::Error);

/// Errors produced by the durable engine.
#[derive(Debug)]
pub enum EngineError {
    /// A filesystem operation failed.
    Io(std::io::Error),
    /// A length or counter exceeded the on-disk representation.
    OutOfRange(&'static str),
    /// An on-disk record is malformed.
    Corrupt(&'static str),
    /// An on-disk record carried a malformed dynamic payload.
    CorruptMessage(String),
    /// A transaction batch contains no mutations.
    EmptyBatch,
    /// A checksum on a self-encoded record did not match.
    ChecksumMismatch,
    /// The memtable is nearly full; the caller should flush and retry.
    Throttled,
    /// A row's primary-key column resolved to `NULL`.
    NullPrimaryKey {
        /// Table the row belongs to.
        table: String,
        /// Name of the null column.
        column: String,
    },
    /// A concurrent transaction wrote a key of this transaction's write set.
    WriteConflict {
        /// Transaction that detected the conflict.
        txn: u64,
        /// Key that caused the conflict.
        key: Vec<u8>,
    },
    /// A concurrent transaction wrote a key of this transaction's read set.
    ReadWriteConflict {
        /// Transaction that detected the conflict.
        txn: u64,
        /// Key that was read here and written by a peer.
        key: Vec<u8>,
    },
}

/// `std::io::Error::to_string` renders the error for people; the text comes
/// from the operating system, so nothing is said of it.
#[verifier::external_body]
fn io_text(e: &std::io::Error) -> (r: String) {
    e.to_string()
}

/// The first `n` bytes in hexadecimal, separated by commas.
pub open spec fn hex_items(s: Seq<u8>, n: nat) -> Seq<char>
    decreases n,
{
    if n == 0 {
        Seq::empty()
    } else {
        let front = hex_items(s, (n - 1) as nat);
        let sep = if n == 1 {
            front
        } else {
            front + ", "@
        };
        sep + seq![hex_char(s[n - 1] as int / 16), hex_char(s[n - 1] as int % 16)]
    }
}

/// The text of a conflict.
pub open spec fn conflict_text(kind: Seq<char>, txn: u64, key: Seq<u8>) -> Seq<char> {
    "SSI "@ + kind + " conflict in transaction "@ + decimal(txn as nat) + " on key ["@ + hex_items(
        key,
        key.len(),
    ) + "]"@
}

fn push_conflict(out: &mut String, kind: &str, txn: u64, key: &Vec<u8>)
    ensures
        final(out)@ == old(out)@ + conflict_text(kind@, txn, key@),
{
    out.append("SSI ");
    out.append(kind);
    out.append(" conflict in transaction ");
    push_decimal(out, txn);
    out.append(" on key [");
    let ghost front = out@;
    let mut i: usize = 0;
    assert(out@ =~= front + hex_items(key@, 0));
    while i < key.len()
        invariant
            i <= key@.len(),
            out@ == front + hex_items(key@, i as nat),
        decreases key@.len() - i,
    {
        if i > 0 {
            out.append(", ");
        }
        push_hex_digits(out, key[i]);
        i += 1;
        assert(out@ =~= front + hex_items(key@, i as nat));
    }
    out.append("]");
    assert(out@ =~= old(out)@ + conflict_text(kind@, txn, key@));
}

/// Result type returned by engine operations.
pub type Result<T> = std::result::Result<T, EngineError>;

impl EngineError {
    /// Whether the error is a `Corrupt` with the text `msg`.
    pub open spec fn is_corrupt(self, msg: &str) -> bool {
        self matches EngineError::Corrupt(m) && m@ == msg@
    }

    /// Whether the error is an `OutOfRange` with the text `msg`.
    pub open spec fn is_out_of_range(self, msg: &str) -> bool {
        self matches EngineError::OutOfRange(m) && m@ == msg@
    }

    /// Whether the error is a `CorruptMessage` with the text `msg`.
    pub open spec fn is_message(self, msg: Seq<char>) -> bool {
        self matches EngineError::CorruptMessage(m) && m@ == msg
    }

    /// The text of the error. Of a filesystem error it is only the beginning:
    /// the rest comes from the operating system.
    pub open spec fn text(self) -> Seq<char> {
        match self {
            EngineError::Io(_) => "I/O error: "@,
            EngineError::OutOfRange(what) => "numeric value is out of range: "@ + what@,
            EngineError::Corrupt(what) => "corrupt data: "@ + what@,
            EngineError::CorruptMessage(what) => "corrupt data: "@ + what@,
            EngineError::EmptyBatch => "transaction batch is empty"@,
            EngineError::ChecksumMismatch => "checksum mismatch"@,
            EngineError::Throttled => "write throttled: memtable at capacity, flush required"@,
            EngineError::NullPrimaryKey { table, column } => "primary key column `"@ + column@
                + "` in table `"@ + table@ + "` is NULL"@,
            EngineError::WriteConflict { txn, key } => conflict_text("write-write"@, txn, key@),
            EngineError::ReadWriteConflict { txn, key } => conflict_text("read-write"@, txn, key@),
        }
    }

    /// Renders the error for people.
    pub fn message(&self) -> (r: String)
        ensures
            self !is Io ==> r@ == self.text(),
            self is Io ==> self.text().is_prefix_of(r@),
    {
        let mut out: String = String::new();
        match self {
            EngineError::Io(e) => {
                out.append("I/O error: ");
                let ghost front = out@;
                let rest = io_text(e);
                out.append(rest.as_str());
                assert(out@.take(front.len() as int) =~= front);
                assert(front =~= "I/O error: "@);
            },
            EngineError::OutOfRange(what) => {
                out.append("numeric value is out of range: ");
                out.append(what);
            },
            EngineError::Corrupt(what) => {
                out.append("corrupt data: ");
                out.append(what);
            },
            EngineError::CorruptMessage(what) => {
                out.append("corrupt data: ");
                out.append(what.as_str());
            },
            EngineError::EmptyBatch => {
                out.append("transaction batch is empty");
            },
            EngineError::ChecksumMismatch => {
                out.append("checksum mismatch");
            },
            EngineError::Throttled => {
                out.append("write throttled: memtable at capacity, flush required");
            },
            EngineError::NullPrimaryKey { table, column } => {
                out.append("primary key column `");
                out.append(column.as_str());
                out.append("` in table `");
                out.append(table.as_str());
                out.append("` is NULL");
            },
            EngineError::WriteConflict { txn, key } => {
                push_conflict(&mut out, "write-write", *txn, key);
            },
            EngineError::ReadWriteConflict { txn, key } => {
                push_conflict(&mut out, "read-write", *txn, key);
            },
        }
        assert(self !is Io ==> out@ =~= self.text());
        out
    }

    /// Whether this is one of the two serialization conflicts.
    pub open spec fn spec_is_conflict(self) -> bool {
        self is WriteConflict || self is ReadWriteConflict
    }

    /// Returns whether this is one of the two serialization conflicts.
    pub fn is_conflict(&self) -> (r: bool)
        ensures
            r == self.spec_is_conflict(),
    {
        match self {
            EngineError::WriteConflict { .. } => true,
            EngineError::ReadWriteConflict { .. } => true,
            _ => false,
        }
    }
}

} // verus!
