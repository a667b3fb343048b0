//! Append-only write-ahead log in a hand-rolled binary frame format.
//!
//! ```text
//!   magic          [u8; 4]     "WAL1"
//!   tx_id          u64   LE
//!   op             u8
//!   key_len        u32   LE
//!   value_len      u32   LE   (0xFFFF_FFFF: no value)
//!   key_bytes      [u8; key_len]
//!   value_bytes    [u8; value_len]
//!   crc32c         u32   LE   (covers everything above)
//! ```
//!
//! A transaction is its frames followed by one `Commit` frame of the same
//! `tx_id`. Decoding stops at the first torn frame.

use crate::buf::{
    append_bytes, bytes_copy, bytes_empty, bytes_slice, bytes_view, has_prefix, opt_bytes_clone,
    opt_bytes_view,
};
use crate::codec::{push_u32, push_u64, read_u32, read_u64, u32_at, u64_at};
use crate::crc32c::{crc32c_with_state, crc_fold};
use crate::error::{EngineError, Result};
use crate::file_io::{
    cut_may_fail, file_bytes, is_cut, may_append, may_read, may_set_len, may_sync, same_reach,
    FileIO,
};
use crate::mutation::{mutation_models, Mutation, MutationModel};
use crate::text::{hex_byte, push_hex_byte};
use bytes::Bytes;
use vstd::bytes::{spec_u32_to_le_bytes, spec_u64_to_le_bytes};
use vstd::prelude::*;
use vstd::slice::slice_subrange;

verus! {

/// The operation of a WAL record.
#[derive(Debug, Clone, Copy, PartialEq, Eq, Structural)]
pub enum OpType {
    /// Insert or overwrite a key/value pair.
    Put,
    /// Mark a key as deleted.
    Delete,
    /// Commit a transaction.
    Commit,
    /// Abort a transaction.
    Abort,
}

impl OpType {
    /// The byte that stands for the operation.
    pub open spec fn tag(self) -> u8 {
        match self {
            OpType::Put => 1,
            OpType::Delete => 2,
            OpType::Commit => 3,
            OpType::Abort => 4,
        }
    }

    /// The operation that a byte stands for.
    pub open spec fn of_tag(tag: u8) -> Option<OpType> {
        if tag == 1 {
            Some(OpType::Put)
        } else if tag == 2 {
            Some(OpType::Delete)
        } else if tag == 3 {
            Some(OpType::Commit)
        } else if tag == 4 {
            Some(OpType::Abort)
        } else {
            None
        }
    }

    /// Returns the byte that stands for the operation.
    pub fn encode(self) -> (r: u8)
        ensures
            r == self.tag(),
    {
        match self {
            OpType::Put => 1,
            OpType::Delete => 2,
            OpType::Commit => 3,
            OpType::Abort => 4,
        }
    }

    /// Returns the operation that `value` stands for; the error names an
    /// unknown byte.
    pub fn decode(value: u8) -> (r: Result<Self>)
        ensures
            r is Ok <==> OpType::of_tag(value) is Some,
            r matches Ok(op) ==> OpType::of_tag(value) == Some(op),
            r matches Err(e) ==> e.is_message(unknown_tag_text(value)),
    {
        match value {
            1 => Ok(OpType::Put),
            2 => Ok(OpType::Delete),
            3 => Ok(OpType::Commit),
            4 => Ok(OpType::Abort),
            _ => {
                let mut text: String = "unknown WAL operation tag ".to_owned();
                push_hex_byte(&mut text, value);
                Err(EngineError::CorruptMessage(text))
            },
        }
    }
}

/// The message for an operation byte that stands for nothing.
pub open spec fn unknown_tag_text(tag: u8) -> Seq<char> {
    "unknown WAL operation tag "@ + hex_byte(tag)
}

/// One WAL record.
#[derive(Debug)]
pub struct WalRecord {
    /// Transaction that owns the record.
    pub tx_id: u64,
    /// Operation.
    pub op: OpType,
    /// Mutation key; empty for transaction markers.
    pub key: Bytes,
    /// Put payload; absent for deletes and transaction markers.
    pub value: Option<Bytes>,
}

/// What a WAL record says.
#[verifier::ext_equal]
pub struct RecordModel {
    /// Transaction that owns the record.
    pub tx_id: u64,
    /// Operation.
    pub op: OpType,
    /// Key bytes.
    pub key: Seq<u8>,
    /// Value bytes.
    pub value: Option<Seq<u8>>,
}

impl View for WalRecord {
    type V = RecordModel;

    open spec fn view(&self) -> RecordModel {
        RecordModel {
            tx_id: self.tx_id,
            op: self.op,
            key: bytes_view(self.key),
            value: opt_bytes_view(self.value),
        }
    }
}

impl Clone for WalRecord {
    fn clone(&self) -> (r: Self)
        ensures
            r@ == self@,
    {
        WalRecord {
            tx_id: self.tx_id,
            op: self.op,
            key: self.key.clone(),
            value: opt_bytes_clone(&self.value),
        }
    }
}

/// What a list of records says.
pub open spec fn record_models(rs: Seq<WalRecord>) -> Seq<RecordModel> {
    rs.map_values(|r: WalRecord| r@)
}

/// The commit marker of `tx_id`.
pub open spec fn commit_model(tx_id: u64) -> RecordModel {
    RecordModel { tx_id, op: OpType::Commit, key: Seq::empty(), value: None }
}

/// The record that logs one mutation.
pub open spec fn mutation_record(tx_id: u64, m: MutationModel) -> RecordModel {
    RecordModel {
        tx_id,
        op: if m.value is Some {
            OpType::Put
        } else {
            OpType::Delete
        },
        key: m.key,
        value: m.value,
    }
}

/// The records that log a transaction's mutations, without its marker.
pub open spec fn mutation_records(tx_id: u64, ms: Seq<MutationModel>) -> Seq<RecordModel> {
    ms.map_values(|m: MutationModel| mutation_record(tx_id, m))
}

impl WalRecord {
    /// Creates a put record.
    pub fn put(tx_id: u64, key: Bytes, value: Bytes) -> (r: Self)
        ensures
            r@ == (RecordModel {
                tx_id,
                op: OpType::Put,
                key: bytes_view(key),
                value: Some(bytes_view(value)),
            }),
    {
        WalRecord { tx_id, op: OpType::Put, key, value: Some(value) }
    }

    /// Creates a delete record.
    pub fn delete(tx_id: u64, key: Bytes) -> (r: Self)
        ensures
            r@ == (RecordModel { tx_id, op: OpType::Delete, key: bytes_view(key), value: None }),
    {
        WalRecord { tx_id, op: OpType::Delete, key, value: None }
    }

    /// Creates a commit marker.
    pub fn commit(tx_id: u64) -> (r: Self)
        ensures
            r@ == commit_model(tx_id),
    {
        WalRecord { tx_id, op: OpType::Commit, key: bytes_empty(), value: None }
    }

    /// Creates an abort marker.
    pub fn abort(tx_id: u64) -> (r: Self)
        ensures
            r@ == (RecordModel { tx_id, op: OpType::Abort, key: Seq::empty(), value: None }),
    {
        WalRecord { tx_id, op: OpType::Abort, key: bytes_empty(), value: None }
    }
}

/// Encodes mutations into log records under `tx_id`, without the commit
/// marker, which the append adds.
pub fn build_wal_records(tx_id: u64, mutations: &[Mutation]) -> (r: Vec<WalRecord>)
    ensures
        record_models(r@) == mutation_records(tx_id, mutation_models(mutations@)),
{
    let ghost rs = mutation_records(tx_id, mutation_models(mutations@));
    let mut records: Vec<WalRecord> = Vec::new();
    let mut i: usize = 0;
    assert(record_models(records@) =~= rs.take(0));
    while i < mutations.len()
        invariant
            rs == mutation_records(tx_id, mutation_models(mutations@)),
            i <= mutations@.len(),
            record_models(records@) == rs.take(i as int),
        decreases mutations@.len() - i,
    {
        let ghost before = record_models(records@);
        let record = match &mutations[i] {
            Mutation::Put { key, value } => WalRecord::put(tx_id, key.clone(), value.clone()),
            Mutation::Delete { key } => WalRecord::delete(tx_id, key.clone()),
        };
        proof {
            assert(mutation_models(mutations@)[i as int] == mutations@[i as int]@);
            assert(record@ == rs[i as int]);
        }
        records.push(record);
        i += 1;
        assert(record_models(records@) =~= before.push(rs[i - 1]));
        assert(record_models(records@) =~= rs.take(i as int));
    }
    assert(rs.take(i as int) =~= rs);
    records
}

/// Every frame begins with this value: `WAL1`.
pub const MAGIC_WAL1: [u8; 4] = [87, 65, 76, 49];

/// `value_len` of a frame without a value.
pub const VALUE_NONE: u32 = 0xFFFF_FFFF;

/// Bytes before the key of a frame: magic, `tx_id`, `op` and the two lengths.
pub const FRAME_HEADER_LEN: usize = 21;

/// Bytes of the checksum that ends a frame.
pub const FRAME_CRC_LEN: usize = 4;

/// The magic bytes.
pub open spec fn magic() -> Seq<u8> {
    seq![87u8, 65u8, 76u8, 49u8]
}

// ── Encoding ──────────────────────────────────────────────────────────────

/// The bytes of an optional value, none for none.
pub open spec fn value_bytes(value: Option<Seq<u8>>) -> Seq<u8> {
    match value {
        Some(v) => v,
        None => Seq::empty(),
    }
}

/// `value_len` as it stands in a frame.
pub open spec fn value_len_field(value: Option<Seq<u8>>) -> u32 {
    match value {
        Some(v) => v.len() as u32,
        None => VALUE_NONE,
    }
}

/// The frame's bytes up to the key.
pub open spec fn frame_header(r: RecordModel) -> Seq<u8> {
    magic() + spec_u64_to_le_bytes(r.tx_id) + seq![r.op.tag()] + spec_u32_to_le_bytes(
        r.key.len() as u32,
    ) + spec_u32_to_le_bytes(value_len_field(r.value))
}

/// The frame's bytes that the checksum covers.
pub open spec fn frame_body(r: RecordModel) -> Seq<u8> {
    frame_header(r) + r.key + value_bytes(r.value)
}

/// The frame of a record.
pub open spec fn frame_bytes(r: RecordModel) -> Seq<u8> {
    frame_body(r) + spec_u32_to_le_bytes(crc_fold(0, frame_body(r)))
}

/// The length of a record's frame.
pub open spec fn frame_len(r: RecordModel) -> nat {
    25 + r.key.len() + value_bytes(r.value).len()
}

/// Key and value are short enough to be length-prefixed.
pub open spec fn record_fits(r: RecordModel) -> bool {
    &&& r.key.len() <= u32::MAX
    &&& value_bytes(r.value).len() <= u32::MAX
}

/// The frames of a list of records, one behind the other.
pub open spec fn frames(rs: Seq<RecordModel>) -> Seq<u8>
    decreases rs.len(),
{
    if rs.len() == 0 {
        Seq::empty()
    } else {
        frames(rs.drop_last()) + frame_bytes(rs.last())
    }
}

/// Why a record cannot be encoded: the value is judged before the key.
pub open spec fn is_length_error(e: EngineError, r: RecordModel) -> bool {
    if value_bytes(r.value).len() > u32::MAX {
        e.is_out_of_range("WAL value length exceeds u32::MAX")
    } else {
        e.is_out_of_range("WAL key length exceeds u32::MAX")
    }
}

/// Encoding `rs` behind `before` stopped at a record that does not fit, having
/// written those in front of it.
pub open spec fn stopped_at_unfit(
    before: Seq<u8>,
    after: Seq<u8>,
    rs: Seq<RecordModel>,
    e: EngineError,
) -> bool {
    exists|i: int|
        {
            &&& 0 <= i < rs.len()
            &&& forall|j: int| 0 <= j < i ==> record_fits(#[trigger] rs[j])
            &&& !record_fits(#[trigger] rs[i])
            &&& after == before + frames(rs.take(i))
            &&& is_length_error(e, rs[i])
        }
}

/// Appends one frame. `value` is none for tombstones and markers.
///
/// Fails with `OutOfRange`, leaving `out` as it was, if the key or the value
/// exceeds `u32::MAX` bytes.
pub fn encode_frame(
    out: &mut Vec<u8>,
    tx_id: u64,
    op: OpType,
    key: &[u8],
    value: Option<&[u8]>,
) -> (r: Result<()>)
    ensures
        ({
            let rec = RecordModel {
                tx_id,
                op,
                key: key@,
                value: match value {
                    Some(v) => Some(v@),
                    None => None,
                },
            };
            &&& r is Ok <==> record_fits(rec)
            &&& r is Ok ==> final(out)@ == old(out)@ + frame_bytes(rec)
            &&& r matches Err(e) ==> final(out)@ == old(out)@ && is_length_error(e, rec)
        }),
{
    let ghost rec = RecordModel {
        tx_id,
        op,
        key: key@,
        value: match value {
            Some(v) => Some(v@),
            None => None,
        },
    };
    let value_len: u32 = match value {
        Some(v) => {
            if v.len() as u64 > u32::MAX as u64 {
                return Err(EngineError::OutOfRange("WAL value length exceeds u32::MAX"));
            }
            v.len() as u32
        },
        None => VALUE_NONE,
    };
    if key.len() as u64 > u32::MAX as u64 {
        return Err(EngineError::OutOfRange("WAL key length exceeds u32::MAX"));
    }
    let mut frame: Vec<u8> = Vec::new();
    frame.push(87);
    frame.push(65);
    frame.push(76);
    frame.push(49);
    assert(frame@ =~= magic());
    push_u64(&mut frame, tx_id);
    frame.push(op.encode());
    assert(frame@ =~= magic() + spec_u64_to_le_bytes(tx_id) + seq![op.tag()]);
    push_u32(&mut frame, key.len() as u32);
    push_u32(&mut frame, value_len);
    append_bytes(&mut frame, key);
    match value {
        Some(v) => append_bytes(&mut frame, v),
        None => {},
    }
    assert(frame@ =~= frame_body(rec));
    let crc: u32 = crc32c_with_state(frame.as_slice(), 0);
    push_u32(&mut frame, crc);
    append_bytes(out, frame.as_slice());
    Ok(())
}

fn encode_record(out: &mut Vec<u8>, record: &WalRecord) -> (r: Result<()>)
    ensures
        r is Ok <==> record_fits(record@),
        r is Ok ==> final(out)@ == old(out)@ + frame_bytes(record@),
        r matches Err(e) ==> final(out)@ == old(out)@ && is_length_error(e, record@),
{
    match &record.value {
        Some(v) => encode_frame(
            out,
            record.tx_id,
            record.op,
            bytes_slice(&record.key),
            Some(bytes_slice(v)),
        ),
        None => encode_frame(out, record.tx_id, record.op, bytes_slice(&record.key), None),
    }
}

fn encode_commit(out: &mut Vec<u8>, tx_id: u64) -> (r: Result<()>)
    ensures
        r is Ok,
        final(out)@ == old(out)@ + frame_bytes(commit_model(tx_id)),
{
    let empty: Vec<u8> = Vec::new();
    assert(empty@ =~= Seq::<u8>::empty());
    encode_frame(out, tx_id, OpType::Commit, empty.as_slice(), None)
}

/// The bytes of a transaction: its records and the commit marker.
pub open spec fn batch_bytes(rs: Seq<RecordModel>, tx_id: u64) -> Seq<u8> {
    frames(rs.push(commit_model(tx_id)))
}

proof fn lemma_batch_bytes(rs: Seq<RecordModel>, tx_id: u64)
    ensures
        batch_bytes(rs, tx_id) == frames(rs) + frame_bytes(commit_model(tx_id)),
{
    assert(rs.push(commit_model(tx_id)).drop_last() =~= rs);
}

proof fn lemma_frames_step(before: Seq<u8>, rs: Seq<RecordModel>, i: int)
    requires
        0 <= i < rs.len(),
    ensures
        before + frames(rs.take(i)) + frame_bytes(rs[i]) == before + frames(rs.take(i + 1)),
{
    assert(rs.take(i + 1).drop_last() =~= rs.take(i));
    assert(rs.take(i + 1).last() == rs[i]);
    assert(before + frames(rs.take(i)) + frame_bytes(rs[i]) =~= before + (frames(rs.take(i))
        + frame_bytes(rs[i])));
}

/// Appends `records` and the commit marker of `commit_tx_id`.
///
/// Fails with `OutOfRange` at the first record whose key or value exceeds
/// `u32::MAX` bytes.
pub fn encode_batch(out: &mut Vec<u8>, records: &[WalRecord], commit_tx_id: u64) -> (r: Result<()>)
    ensures
        r is Ok <==> forall|i: int|
            0 <= i < records@.len() ==> record_fits(#[trigger] record_models(records@)[i]),
        r is Ok ==> final(out)@ == old(out)@ + batch_bytes(record_models(records@), commit_tx_id),
        r matches Err(e) ==> stopped_at_unfit(
            old(out)@,
            final(out)@,
            record_models(records@),
            e,
        ),
{
    let ghost rs = record_models(records@);
    let mut i: usize = 0;
    assert(rs.take(0) =~= Seq::<RecordModel>::empty());
    assert(out@ =~= old(out)@ + frames(rs.take(0)));
    while i < records.len()
        invariant
            rs == record_models(records@),
            i <= records.len(),
            forall|j: int| 0 <= j < i ==> record_fits(#[trigger] rs[j]),
            out@ == old(out)@ + frames(rs.take(i as int)),
        decreases records.len() - i,
    {
        assert(rs[i as int] == records@[i as int]@);
        match encode_record(out, &records[i]) {
            Ok(()) => {},
            Err(e) => {
                return Err(e);
            },
        }
        proof {
            lemma_frames_step(old(out)@, rs, i as int);
        }
        i += 1;
    }
    assert(rs.take(i as int) =~= rs);
    let r = encode_commit(out, commit_tx_id);
    proof {
        lemma_batch_bytes(rs, commit_tx_id);
        assert(out@ =~= old(out)@ + batch_bytes(rs, commit_tx_id));
    }
    r
}

/// Appends the records of `mutations` and the commit marker of `tx_id`.
///
/// Fails with `OutOfRange` at the first mutation whose key or value exceeds
/// `u32::MAX` bytes.
pub fn encode_mutations(out: &mut Vec<u8>, tx_id: u64, mutations: &[Mutation]) -> (r: Result<()>)
    ensures
        r is Ok <==> forall|i: int|
            0 <= i < mutations@.len() ==> record_fits(
                #[trigger] mutation_records(tx_id, mutation_models(mutations@))[i],
            ),
        r is Ok ==> final(out)@ == old(out)@ + batch_bytes(
            mutation_records(tx_id, mutation_models(mutations@)),
            tx_id,
        ),
        r matches Err(e) ==> stopped_at_unfit(
            old(out)@,
            final(out)@,
            mutation_records(tx_id, mutation_models(mutations@)),
            e,
        ),
{
    let ghost rs = mutation_records(tx_id, mutation_models(mutations@));
    let mut i: usize = 0;
    assert(rs.take(0) =~= Seq::<RecordModel>::empty());
    assert(out@ =~= old(out)@ + frames(rs.take(0)));
    while i < mutations.len()
        invariant
            rs == mutation_records(tx_id, mutation_models(mutations@)),
            i <= mutations.len(),
            forall|j: int| 0 <= j < i ==> record_fits(#[trigger] rs[j]),
            out@ == old(out)@ + frames(rs.take(i as int)),
        decreases mutations.len() - i,
    {
        assert(rs[i as int] == mutation_record(tx_id, mutations@[i as int]@));
        let r = match &mutations[i] {
            Mutation::Put { key, value } => encode_frame(
                out,
                tx_id,
                OpType::Put,
                bytes_slice(key),
                Some(bytes_slice(value)),
            ),
            Mutation::Delete { key } => encode_frame(
                out,
                tx_id,
                OpType::Delete,
                bytes_slice(key),
                None,
            ),
        };
        match r {
            Ok(()) => {},
            Err(e) => {
                return Err(e);
            },
        }
        proof {
            lemma_frames_step(old(out)@, rs, i as int);
        }
        i += 1;
    }
    assert(rs.take(i as int) =~= rs);
    let r = encode_commit(out, tx_id);
    proof {
        lemma_batch_bytes(rs, tx_id);
        assert(out@ =~= old(out)@ + batch_bytes(rs, tx_id));
    }
    r
}

// ── Decoding ──────────────────────────────────────────────────────────────

/// What stands at a place of a log.
#[verifier::ext_equal]
pub enum Parsed {
    /// No complete, sound frame.
    Torn,
    /// A frame header with an unknown operation byte.
    UnknownOp(u8),
    /// A frame whose end is no address.
    Overflow,
    /// A sound frame, and where it ends.
    Frame(RecordModel, int),
}

/// The length that a length field stands for.
pub open spec fn field_len(field: u32) -> int {
    if field == VALUE_NONE {
        0
    } else {
        field as int
    }
}

/// Reads the frame at `at`.
pub open spec fn parse_frame(buf: Seq<u8>, at: int) -> Parsed {
    if at + 21 > buf.len() || buf.subrange(at, at + 4) != magic() {
        Parsed::Torn
    } else {
        let op = OpType::of_tag(buf[at + 12]);
        let key_start = at + 21;
        let value_start = key_start + field_len(u32_at(buf, at + 13));
        let body_end = value_start + field_len(u32_at(buf, at + 17));
        if op is None {
            Parsed::UnknownOp(buf[at + 12])
        } else if body_end + 4 > usize::MAX {
            Parsed::Overflow
        } else if body_end + 4 > buf.len() || u32_at(buf, body_end) != crc_fold(
            0,
            buf.subrange(at, body_end),
        ) {
            Parsed::Torn
        } else {
            Parsed::Frame(
                RecordModel {
                    tx_id: u64_at(buf, at + 4),
                    op: op->0,
                    key: buf.subrange(key_start, value_start),
                    value: if u32_at(buf, at + 17) == VALUE_NONE {
                        None
                    } else {
                        Some(buf.subrange(value_start, body_end))
                    },
                },
                body_end + 4,
            )
        }
    }
}

/// `e` is the error for what stands at a place of a log.
pub open spec fn is_parse_error(e: EngineError, p: Parsed) -> bool {
    match p {
        Parsed::UnknownOp(tag) => e.is_message(unknown_tag_text(tag)),
        Parsed::Overflow => e.is_corrupt("WAL frame length overflow"),
        _ => false,
    }
}

/// One decoded frame.
#[derive(Debug)]
pub struct DecodedFrame {
    /// Transaction that owns the record.
    pub tx_id: u64,
    /// Operation.
    pub op: OpType,
    /// Key.
    pub key: Bytes,
    /// Value.
    pub value: Option<Bytes>,
    /// Where the next frame starts; none behind the last frame of the buffer.
    pub next_offset: Option<u64>,
}

impl DecodedFrame {
    /// What the frame says.
    pub open spec fn model(&self) -> RecordModel {
        RecordModel {
            tx_id: self.tx_id,
            op: self.op,
            key: bytes_view(self.key),
            value: opt_bytes_view(self.value),
        }
    }
}

fn is_magic_at(buf: &[u8], at: usize) -> (r: bool)
    requires
        at + 4 <= buf@.len(),
    ensures
        r == (buf@.subrange(at as int, at + 4) == magic()),
{
    let r = buf[at] == 87 && buf[at + 1] == 65 && buf[at + 2] == 76 && buf[at + 3] == 49;
    proof {
        let s = buf@.subrange(at as int, at + 4);
        assert(s[0] == buf@[at as int] && s[1] == buf@[at + 1] && s[2] == buf@[at + 2] && s[3]
            == buf@[at + 3]);
        if r {
            assert(s =~= magic());
        } else {
            assert(magic()[0] == 87 && magic()[1] == 65 && magic()[2] == 76 && magic()[3] == 49);
        }
    }
    r
}

/// Decodes the frame at `cursor`.
///
/// A torn write (truncated header or body, bad checksum or magic) gives
/// `Ok(None)`; an unknown operation byte or a length overflow is an error.
pub fn decode_frame(buf: &[u8], cursor: usize) -> (r: Result<Option<DecodedFrame>>)
    ensures
        match parse_frame(buf@, cursor as int) {
            Parsed::Torn => r matches Ok(None),
            Parsed::Frame(m, end) => {
                &&& r matches Ok(Some(f))
                &&& f.model() == m
                &&& f.next_offset == (if end == buf@.len() {
                    None::<u64>
                } else {
                    Some(end as u64)
                })
            },
            p => r matches Err(e) && is_parse_error(e, p),
        },
{
    if buf.len() < FRAME_HEADER_LEN || cursor > buf.len() - FRAME_HEADER_LEN {
        return Ok(None);
    }
    if !is_magic_at(buf, cursor) {
        return Ok(None);
    }
    let tx_id: u64 = read_u64(buf, cursor + 4);
    let op = match OpType::decode(buf[cursor + 12]) {
        Ok(op) => op,
        Err(e) => {
            return Err(e);
        },
    };
    let key_field: u32 = read_u32(buf, cursor + 13);
    let value_field: u32 = read_u32(buf, cursor + 17);
    let key_len: usize = if key_field == VALUE_NONE {
        0
    } else {
        key_field as usize
    };
    let value_len: usize = if value_field == VALUE_NONE {
        0
    } else {
        value_field as usize
    };
    let body_start: usize = cursor + FRAME_HEADER_LEN;
    if key_len > usize::MAX - body_start || value_len > usize::MAX - body_start - key_len
        || FRAME_CRC_LEN > usize::MAX - body_start - key_len - value_len {
        return Err(EngineError::Corrupt("WAL frame length overflow"));
    }
    let value_start: usize = body_start + key_len;
    let body_end: usize = value_start + value_len;
    let crc_end: usize = body_end + FRAME_CRC_LEN;
    if crc_end > buf.len() {
        return Ok(None);
    }
    let expected: u32 = crc32c_with_state(slice_subrange(buf, cursor, body_end), 0);
    let actual: u32 = read_u32(buf, body_end);
    if expected != actual {
        return Ok(None);
    }
    let key = bytes_copy(slice_subrange(buf, body_start, value_start));
    let value = if value_field == VALUE_NONE {
        None
    } else {
        Some(bytes_copy(slice_subrange(buf, value_start, body_end)))
    };
    let next_offset = if crc_end == buf.len() {
        None
    } else {
        Some(crc_end as u64)
    };
    Ok(Some(DecodedFrame { tx_id, op, key, value, next_offset }))
}

/// What a decoded frame is kept as: only a put keeps its value.
pub open spec fn kept(m: RecordModel) -> RecordModel {
    RecordModel {
        tx_id: m.tx_id,
        op: m.op,
        key: m.key,
        value: if m.op == OpType::Put {
            m.value
        } else {
            None
        },
    }
}

/// What a log holds from `at` on.
#[verifier::ext_equal]
pub struct LogModel {
    /// The records of the sound frames.
    pub records: Seq<RecordModel>,
    /// Where the sound frames end.
    pub valid: int,
    /// What stopped the walk.
    pub stop: Parsed,
}

/// Walks the frames of a log from `at` up to the first that is not sound.
pub open spec fn parse_log(buf: Seq<u8>, at: int) -> LogModel
    decreases buf.len() - at,
{
    match parse_frame(buf, at) {
        Parsed::Frame(m, end) => if at < end <= buf.len() {
            let rest = parse_log(buf, end);
            LogModel { records: seq![kept(m)] + rest.records, valid: rest.valid, stop: rest.stop }
        } else {
            LogModel { records: Seq::empty(), valid: at, stop: Parsed::Torn }
        },
        p => LogModel { records: Seq::empty(), valid: at, stop: p },
    }
}

/// Decodes all frames up to the first torn one.
///
/// Returns the records and the end of the last sound frame.
pub fn decode_all(buf: &[u8]) -> (r: Result<(Vec<WalRecord>, u64)>)
    ensures
        ({
            let log = parse_log(buf@, 0);
            &&& r is Ok <==> log.stop is Torn
            &&& r matches Ok(p) ==> record_models(p.0@) == log.records && p.1 == log.valid
            &&& r matches Err(e) ==> is_parse_error(e, log.stop)
        }),
{
    let mut cursor: usize = 0;
    let mut out: Vec<WalRecord> = Vec::new();
    let ghost whole = parse_log(buf@, 0);
    assert(record_models(out@) + parse_log(buf@, 0).records =~= whole.records);
    loop
        invariant
            cursor <= buf@.len(),
            whole == parse_log(buf@, 0),
            whole.records == record_models(out@) + parse_log(buf@, cursor as int).records,
            whole.valid == parse_log(buf@, cursor as int).valid,
            whole.stop == parse_log(buf@, cursor as int).stop,
        decreases buf@.len() - cursor,
    {
        let frame = match decode_frame(buf, cursor) {
            Err(e) => {
                return Err(e);
            },
            Ok(None) => {
                assert(record_models(out@) =~= whole.records);
                return Ok((out, cursor as u64));
            },
            Ok(Some(f)) => f,
        };
        let ghost m = frame.model();
        let value = match frame.op {
            OpType::Put => frame.value,
            _ => None,
        };
        let record = WalRecord { tx_id: frame.tx_id, op: frame.op, key: frame.key, value };
        assert(record@ == kept(m));
        let ghost before = out@;
        out.push(record);
        assert(record_models(out@) =~= record_models(before).push(kept(m)));
        let next: usize = match frame.next_offset {
            None => buf.len(),
            Some(n) => n as usize,
        };
        proof {
            let tail = parse_log(buf@, next as int).records;
            assert(record_models(before) + (seq![kept(m)] + tail) =~= record_models(out@) + tail);
        }
        cursor = next;
    }
}

// ── The log file ──────────────────────────────────────────────────────────

/// The message for a log of another format.
pub open spec fn unsupported_wal_text() -> Seq<char> {
    "WAL file uses an unsupported format: only the binary WAL1 format is accepted (legacy Arrow-IPC WAL files are no longer supported)"@
}

/// The log begins like one of this format; an empty log does too.
pub open spec fn is_wal1(bytes: Seq<u8>) -> bool {
    bytes.len() == 0 || has_prefix(bytes, magic())
}

/// Decodes the bytes of a log file: the records, and the offset that a torn
/// tail is truncated to.
pub fn recover_bytes(bytes: &[u8]) -> (r: Result<(Vec<WalRecord>, u64)>)
    ensures
        ({
            let log = parse_log(bytes@, 0);
            &&& r is Ok <==> is_wal1(bytes@) && log.stop is Torn
            &&& r matches Ok(p) ==> record_models(p.0@) == log.records && p.1 == log.valid
            &&& r matches Err(e) ==> if is_wal1(bytes@) {
                is_parse_error(e, log.stop)
            } else {
                e.is_message(unsupported_wal_text())
            }
        }),
{
    if bytes.len() > 0 && !(bytes.len() >= 4 && is_magic_at(bytes, 0)) {
        proof {
            if bytes@.len() >= 4 {
                assert(bytes@.subrange(0, 4) =~= bytes@.take(4));
            }
        }
        return Err(
            EngineError::CorruptMessage(
                "WAL file uses an unsupported format: only the binary WAL1 format is accepted (legacy Arrow-IPC WAL files are no longer supported)".to_owned(),
            ),
        );
    }
    proof {
        if bytes@.len() > 0 {
            assert(bytes@.subrange(0, 4) =~= bytes@.take(4));
        }
    }
    decode_all(bytes)
}

/// Append-only WAL handle over an open file.
pub struct Wal<F: FileIO> {
    path: String,
    file: F,
}

/// The transactions of a group commit: each its id and its records.
pub open spec fn group_models(
    batches: Seq<(u64, &[WalRecord])>,
) -> Seq<(u64, Seq<RecordModel>)> {
    batches.map_values(|b: (u64, &[WalRecord])| (b.0, record_models(b.1@)))
}

/// The transactions of a group commit, as mutations.
pub open spec fn group_mutation_models(
    batches: Seq<(u64, &[Mutation])>,
) -> Seq<(u64, Seq<RecordModel>)> {
    batches.map_values(
        |b: (u64, &[Mutation])| (b.0, mutation_records(b.0, mutation_models(b.1@))),
    )
}

/// The bytes of a group commit: the transactions one behind the other, without
/// those that have no records.
pub open spec fn group_bytes(batches: Seq<(u64, Seq<RecordModel>)>) -> Seq<u8>
    decreases batches.len(),
{
    if batches.len() == 0 {
        Seq::empty()
    } else {
        let front = group_bytes(batches.drop_last());
        if batches.last().1.len() == 0 {
            front
        } else {
            front + batch_bytes(batches.last().1, batches.last().0)
        }
    }
}

/// Every record of a group commit fits.
pub open spec fn group_fits(batches: Seq<(u64, Seq<RecordModel>)>) -> bool {
    forall|b: int, i: int|
        0 <= b < batches.len() && 0 <= i < batches[b].1.len() ==> record_fits(
            #[trigger] batches[b].1[i],
        )
}

/// `e` tells of a record of a group commit that does not fit.
pub open spec fn is_group_error(e: EngineError, batches: Seq<(u64, Seq<RecordModel>)>) -> bool {
    exists|b: int, i: int|
        0 <= b < batches.len() && 0 <= i < batches[b].1.len() && !record_fits(
            #[trigger] batches[b].1[i],
        ) && is_length_error(e, batches[b].1[i])
}

/// What an append of `bytes` may leave behind: all of it after success, a part
/// of it after an I/O failure.
pub open spec fn appended(
    before: Seq<u8>,
    after: Seq<u8>,
    bytes: Seq<u8>,
    r: Result<u64>,
) -> bool {
    match r {
        Ok(n) => after == before + bytes && n == bytes.len(),
        Err(e) => e is Io && exists|n: int|
            0 <= n <= bytes.len() && after == before + #[trigger] bytes.take(n),
    }
}

/// The handle `io` has the same file open as `file`, with `bytes` behind its
/// content, and reaches the same other files.
pub open spec fn is_extended<F: FileIO>(io: F, file: F, bytes: Seq<u8>) -> bool {
    &&& io.current() == file.current()
    &&& io.files() == file.files().insert(
        io.current(),
        file_bytes(file.files(), io.current()) + bytes,
    )
}

/// Appending `bytes` to the open file, with a sync behind it where `sync` is
/// set, went as `done` says; if not, one of these steps failed.
pub open spec fn log_takes<F: FileIO>(file: F, bytes: Seq<u8>, sync: bool, done: bool) -> bool {
    ||| !done && may_append(file, bytes, false)
    ||| may_append(file, bytes, true) && if sync {
        exists|io: F| #[trigger] is_extended(io, file, bytes) && may_sync(io, done)
    } else {
        done
    }
}

/// Opening the log in the open file, whose sound part is its first `valid`
/// bytes, may fail: it cannot be read, cut or synced.
pub open spec fn open_may_fail<F: FileIO>(file: F, valid: int) -> bool {
    ||| cut_may_fail(file, valid)
    ||| exists|io: F| #[trigger] is_cut(io, file, valid) && may_sync(io, false)
}

/// The handle reaches the open file of `before` as an empty file.
pub open spec fn is_emptied<F: FileIO>(before: F, io: F) -> bool {
    &&& io.current() == before.current()
    &&& file_bytes(io.files(), io.current()) == Seq::<u8>::empty()
    &&& io.files().remove(io.current()) == before.files().remove(io.current())
}

/// Emptying the open file durably went as `done` says: it was truncated and
/// then synced; if not, one of these steps failed.
pub open spec fn emptying<F: FileIO>(before: F, done: bool) -> bool {
    ||| !done && may_set_len(before, 0, false)
    ||| may_set_len(before, 0, true) && exists|io: F| #[trigger]
        is_emptied(before, io) && may_sync(io, done)
}

impl<F: FileIO> Wal<F> {
    /// The bytes of the log file.
    pub closed spec fn content(&self) -> Seq<u8> {
        file_bytes(self.file.files(), self.file.current())
    }

    /// The file handle is in order.
    pub closed spec fn wf(&self) -> bool {
        self.file.wf()
    }

    /// The handle on the log file.
    pub closed spec fn handle(&self) -> F {
        self.file
    }

    /// The path of the log file.
    pub closed spec fn spec_path(&self) -> Seq<char> {
        self.path@
    }

    /// Opens a WAL for appending. A torn final frame is truncated before new
    /// records are accepted.
    pub fn open(path: &str, file: F) -> (r: Result<Self>)
        requires
            file.wf(),
        ensures
            ({
                let bytes = file_bytes(file.files(), file.current());
                let log = parse_log(bytes, 0);
                &&& r matches Ok(w) ==> {
                    &&& is_wal1(bytes)
                    &&& log.stop is Torn
                    &&& w.wf()
                    &&& w.content() == bytes.take(log.valid)
                    &&& w.spec_path() == path@
                    &&& is_cut(w.handle(), file, log.valid)
                }
                &&& r matches Err(e) ==> {
                    ||| e is Io && open_may_fail(file, log.valid)
                    ||| !is_wal1(bytes) && e.is_message(unsupported_wal_text())
                    ||| is_wal1(bytes) && is_parse_error(e, log.stop)
                }
            }),
    {
        let ghost given = file;
        let mut file = file;
        let content = file.read_all();
        assert(may_read(given, content is Ok));
        let bytes = match content {
            Ok(b) => b,
            Err(e) => {
                return Err(EngineError::Io(e));
            },
        };
        let (_records, valid) = match recover_bytes(bytes.as_slice()) {
            Ok(p) => p,
            Err(e) => {
                return Err(e);
            },
        };
        proof {
            lemma_valid_in_range(bytes@, 0);
        }
        assert(same_reach(file, given));
        match file.set_len(valid) {
            Ok(()) => {},
            Err(e) => {
                return Err(EngineError::Io(e));
            },
        }
        assert(is_cut(file, given, valid as int));
        match file.sync_data() {
            Ok(()) => {},
            Err(e) => {
                return Err(EngineError::Io(e));
            },
        }
        Ok(Wal { path: path.to_owned(), file })
    }

    /// Returns this WAL's path.
    pub fn path(&self) -> (r: &String)
        ensures
            r@ == self.spec_path(),
    {
        &self.path
    }

    /// Returns the current size of the WAL file in bytes, zero if it cannot be
    /// read.
    pub fn current_size(&mut self) -> (r: u64)
        requires
            old(self).wf(),
        ensures
            final(self).wf(),
            final(self).content() == old(self).content(),
            final(self).spec_path() == old(self).spec_path(),
            same_reach(final(self).handle(), old(self).handle()),
            exists|read: bool| #[trigger]
                may_read(old(self).handle(), read) && r == (if read {
                    old(self).content().len()
                } else {
                    0
                }),
    {
        let bytes = self.file.read_all();
        assert(may_read(old(self).handle(), bytes is Ok));
        match bytes {
            Ok(v) => v.len() as u64,
            Err(_) => 0,
        }
    }

    fn write_bytes(&mut self, bytes: &Vec<u8>) -> (r: Result<u64>)
        requires
            old(self).wf(),
        ensures
            final(self).wf(),
            final(self).spec_path() == old(self).spec_path(),
            appended(old(self).content(), final(self).content(), bytes@, r),
            log_takes(old(self).handle(), bytes@, false, r is Ok),
            r is Ok ==> is_extended(final(self).handle(), old(self).handle(), bytes@),
    {
        let written = self.file.write_all(bytes.as_slice());
        assert(may_append(old(self).handle(), bytes@, written is Ok));
        match written {
            Ok(()) => Ok(bytes.len() as u64),
            Err(e) => Err(EngineError::Io(e)),
        }
    }

    fn write_and_sync(&mut self, bytes: &Vec<u8>) -> (r: Result<u64>)
        requires
            old(self).wf(),
        ensures
            final(self).wf(),
            final(self).spec_path() == old(self).spec_path(),
            appended(old(self).content(), final(self).content(), bytes@, r),
            log_takes(old(self).handle(), bytes@, true, r is Ok),
    {
        let written = self.file.write_all(bytes.as_slice());
        assert(may_append(old(self).handle(), bytes@, written is Ok));
        match written {
            Ok(()) => {},
            Err(e) => {
                return Err(EngineError::Io(e));
            },
        }
        assert(is_extended(self.file, old(self).handle(), bytes@));
        match self.file.sync_data() {
            Ok(()) => Ok(bytes.len() as u64),
            Err(e) => {
                assert(bytes@.take(bytes@.len() as int) =~= bytes@);
                Err(EngineError::Io(e))
            },
        }
    }

    /// Appends a batch of records followed by a commit marker and syncs the
    /// file. Returns the bytes written; an empty batch writes nothing.
    pub fn append_batch_commit_and_sync(
        &mut self,
        records: &[WalRecord],
        tx_id: u64,
    ) -> (r: Result<u64>)
        requires
            old(self).wf(),
        ensures
            final(self).wf(),
            final(self).spec_path() == old(self).spec_path(),
            ({
                let rs = record_models(records@);
                let before = old(self).content();
                let after = final(self).content();
                let fit = forall|i: int| 0 <= i < rs.len() ==> record_fits(#[trigger] rs[i]);
                &&& rs.len() == 0 ==> r == Ok::<u64, EngineError>(0) && after == before
                &&& !fit ==> {
                    &&& after == before
                    &&& r matches Err(e)
                    &&& exists|i: int|
                        0 <= i < rs.len() && !record_fits(#[trigger] rs[i]) && is_length_error(
                            e,
                            rs[i],
                        )
                }
                &&& rs.len() > 0 && fit ==> {
                    &&& appended(before, after, batch_bytes(rs, tx_id), r)
                    &&& log_takes(old(self).handle(), batch_bytes(rs, tx_id), true, r is Ok)
                }
            }),
    {
        if records.len() == 0 {
            return Ok(0);
        }
        let mut buffer: Vec<u8> = Vec::new();
        match encode_batch(&mut buffer, records, tx_id) {
            Ok(()) => {},
            Err(e) => {
                return Err(e);
            },
        }
        assert(buffer@ =~= batch_bytes(record_models(records@), tx_id));
        self.write_and_sync(&buffer)
    }

    /// Appends the records of `mutations` followed by a commit marker and
    /// syncs the file. Returns the bytes written; no mutations write nothing.
    pub fn append_mutations_commit_and_sync(
        &mut self,
        tx_id: u64,
        mutations: &[Mutation],
    ) -> (r: Result<u64>)
        requires
            old(self).wf(),
        ensures
            final(self).wf(),
            final(self).spec_path() == old(self).spec_path(),
            ({
                let rs = mutation_records(tx_id, mutation_models(mutations@));
                let before = old(self).content();
                let after = final(self).content();
                let fit = forall|i: int| 0 <= i < rs.len() ==> record_fits(#[trigger] rs[i]);
                &&& rs.len() == 0 ==> r == Ok::<u64, EngineError>(0) && after == before
                &&& !fit ==> {
                    &&& after == before
                    &&& r matches Err(e)
                    &&& exists|i: int|
                        0 <= i < rs.len() && !record_fits(#[trigger] rs[i]) && is_length_error(
                            e,
                            rs[i],
                        )
                }
                &&& rs.len() > 0 && fit ==> {
                    &&& appended(before, after, batch_bytes(rs, tx_id), r)
                    &&& log_takes(old(self).handle(), batch_bytes(rs, tx_id), true, r is Ok)
                }
            }),
    {
        if mutations.len() == 0 {
            return Ok(0);
        }
        let mut buffer: Vec<u8> = Vec::new();
        match encode_mutations(&mut buffer, tx_id, mutations) {
            Ok(()) => {},
            Err(e) => {
                return Err(e);
            },
        }
        assert(buffer@ =~= batch_bytes(
            mutation_records(tx_id, mutation_models(mutations@)),
            tx_id,
        ));
        self.write_and_sync(&buffer)
    }

    /// Appends several transactions in a single write and sync. Each
    /// transaction's records are followed by its own commit marker.
    pub fn append_multi_batch_commit_and_sync(
        &mut self,
        batches: &[(u64, &[WalRecord])],
    ) -> (r: Result<u64>)
        requires
            old(self).wf(),
        ensures
            final(self).wf(),
            final(self).spec_path() == old(self).spec_path(),
            ({
                let gs = group_models(batches@);
                let before = old(self).content();
                let after = final(self).content();
                &&& !group_fits(gs) ==> {
                    &&& after == before
                    &&& r matches Err(e)
                    &&& is_group_error(e, gs)
                }
                &&& group_fits(gs) ==> {
                    &&& appended(before, after, group_bytes(gs), r)
                    &&& group_bytes(gs).len() > 0 ==> log_takes(
                        old(self).handle(),
                        group_bytes(gs),
                        true,
                        r is Ok,
                    )
                }
            }),
    {
        let ghost bytes = group_bytes(group_models(batches@));
        match self.append_multi_batch(batches) {
            Ok(n) => {
                if n > 0 {
                    match self.file.sync_data() {
                        Ok(()) => {},
                        Err(e) => {
                            assert(bytes.take(bytes.len() as int) =~= bytes);
                            return Err(EngineError::Io(e));
                        },
                    }
                }
                Ok(n)
            },
            Err(e) => Err(e),
        }
    }

    /// Appends several transactions, given as mutations, in a single write and
    /// sync.
    pub fn append_multi_mutations_commit_and_sync(
        &mut self,
        batches: &[(u64, &[Mutation])],
    ) -> (r: Result<u64>)
        requires
            old(self).wf(),
        ensures
            final(self).wf(),
            final(self).spec_path() == old(self).spec_path(),
            ({
                let gs = group_mutation_models(batches@);
                let before = old(self).content();
                let after = final(self).content();
                &&& !group_fits(gs) ==> {
                    &&& after == before
                    &&& r matches Err(e)
                    &&& is_group_error(e, gs)
                }
                &&& group_fits(gs) ==> {
                    &&& appended(before, after, group_bytes(gs), r)
                    &&& group_bytes(gs).len() > 0 ==> log_takes(
                        old(self).handle(),
                        group_bytes(gs),
                        true,
                        r is Ok,
                    )
                }
            }),
    {
        let ghost bytes = group_bytes(group_mutation_models(batches@));
        match self.append_multi_mutations(batches) {
            Ok(n) => {
                if n > 0 {
                    match self.file.sync_data() {
                        Ok(()) => {},
                        Err(e) => {
                            assert(bytes.take(bytes.len() as int) =~= bytes);
                            return Err(EngineError::Io(e));
                        },
                    }
                }
                Ok(n)
            },
            Err(e) => Err(e),
        }
    }

    /// Appends several transactions in a single write, without a sync.
    pub fn append_multi_batch(&mut self, batches: &[(u64, &[WalRecord])]) -> (r: Result<u64>)
        requires
            old(self).wf(),
        ensures
            final(self).wf(),
            final(self).spec_path() == old(self).spec_path(),
            ({
                let gs = group_models(batches@);
                let before = old(self).content();
                let after = final(self).content();
                &&& !group_fits(gs) ==> {
                    &&& after == before
                    &&& r matches Err(e)
                    &&& is_group_error(e, gs)
                }
                &&& group_fits(gs) ==> {
                    &&& appended(before, after, group_bytes(gs), r)
                    &&& group_bytes(gs).len() > 0 ==> log_takes(
                        old(self).handle(),
                        group_bytes(gs),
                        false,
                        r is Ok,
                    )
                }
                &&& group_fits(gs) && group_bytes(gs).len() > 0 && r is Ok ==> is_extended(
                    final(self).handle(),
                    old(self).handle(),
                    group_bytes(gs),
                )
            }),
    {
        let ghost gs = group_models(batches@);
        let mut buffer: Vec<u8> = Vec::new();
        let mut i: usize = 0;
        assert(buffer@ =~= group_bytes(gs.take(0)));
        while i < batches.len()
            invariant
                i <= batches@.len(),
                gs == group_models(batches@),
                buffer@ == group_bytes(gs.take(i as int)),
                forall|b: int, k: int|
                    0 <= b < i && 0 <= k < gs[b].1.len() ==> record_fits(#[trigger] gs[b].1[k]),
                *self == *old(self),
                old(self).wf(),
            decreases batches@.len() - i,
        {
            let entry = &batches[i];
            let records = entry.1;
            assert(gs[i as int] == (entry.0, record_models(records@)));
            assert(gs.take(i + 1).drop_last() =~= gs.take(i as int));
            assert(gs.take(i + 1).last() == gs[i as int]);
            if records.len() > 0 {
                match encode_batch(&mut buffer, records, entry.0) {
                    Ok(()) => {},
                    Err(e) => {
                        assert(is_group_error(e, gs)) by {
                            let rs = record_models(records@);
                            let k = choose|k: int|
                                0 <= k < rs.len() && !record_fits(#[trigger] rs[k])
                                    && is_length_error(e, rs[k]);
                            assert(!record_fits(gs[i as int].1[k]));
                        }
                        return Err(e);
                    },
                }
            }
            i += 1;
        }
        assert(gs.take(i as int) =~= gs);
        if buffer.len() == 0 {
            assert(self.content() + group_bytes(gs) =~= self.content());
            return Ok(0);
        }
        self.write_bytes(&buffer)
    }

    /// Appends several transactions, given as mutations, in a single write,
    /// without a sync.
    pub fn append_multi_mutations(&mut self, batches: &[(u64, &[Mutation])]) -> (r: Result<u64>)
        requires
            old(self).wf(),
        ensures
            final(self).wf(),
            final(self).spec_path() == old(self).spec_path(),
            ({
                let gs = group_mutation_models(batches@);
                let before = old(self).content();
                let after = final(self).content();
                &&& !group_fits(gs) ==> {
                    &&& after == before
                    &&& r matches Err(e)
                    &&& is_group_error(e, gs)
                }
                &&& group_fits(gs) ==> {
                    &&& appended(before, after, group_bytes(gs), r)
                    &&& group_bytes(gs).len() > 0 ==> log_takes(
                        old(self).handle(),
                        group_bytes(gs),
                        false,
                        r is Ok,
                    )
                }
                &&& group_fits(gs) && group_bytes(gs).len() > 0 && r is Ok ==> is_extended(
                    final(self).handle(),
                    old(self).handle(),
                    group_bytes(gs),
                )
            }),
    {
        let ghost gs = group_mutation_models(batches@);
        let mut buffer: Vec<u8> = Vec::new();
        let mut i: usize = 0;
        assert(buffer@ =~= group_bytes(gs.take(0)));
        while i < batches.len()
            invariant
                i <= batches@.len(),
                gs == group_mutation_models(batches@),
                buffer@ == group_bytes(gs.take(i as int)),
                forall|b: int, k: int|
                    0 <= b < i && 0 <= k < gs[b].1.len() ==> record_fits(#[trigger] gs[b].1[k]),
                *self == *old(self),
                old(self).wf(),
            decreases batches@.len() - i,
        {
            let entry = &batches[i];
            let mutations = entry.1;
            let ghost rs = mutation_records(entry.0, mutation_models(mutations@));
            assert(gs[i as int] == (entry.0, rs));
            assert(gs.take(i + 1).drop_last() =~= gs.take(i as int));
            assert(gs.take(i + 1).last() == gs[i as int]);
            if mutations.len() > 0 {
                match encode_mutations(&mut buffer, entry.0, mutations) {
                    Ok(()) => {},
                    Err(e) => {
                        assert(is_group_error(e, gs)) by {
                            let k = choose|k: int|
                                0 <= k < rs.len() && !record_fits(#[trigger] rs[k])
                                    && is_length_error(e, rs[k]);
                            assert(!record_fits(gs[i as int].1[k]));
                        }
                        return Err(e);
                    },
                }
            }
            i += 1;
        }
        assert(gs.take(i as int) =~= gs);
        if buffer.len() == 0 {
            assert(self.content() + group_bytes(gs) =~= self.content());
            return Ok(0);
        }
        self.write_bytes(&buffer)
    }

    /// Makes what was appended durable.
    pub fn sync_data(&mut self) -> (r: Result<()>)
        requires
            old(self).wf(),
        ensures
            final(self).wf(),
            final(self).spec_path() == old(self).spec_path(),
            final(self).content() == old(self).content(),
            may_sync(old(self).handle(), r is Ok),
            r matches Err(e) ==> e is Io,
    {
        match self.file.sync_data() {
            Ok(()) => Ok(()),
            Err(e) => Err(EngineError::Io(e)),
        }
    }

    /// Truncates the WAL after a durable checkpoint.
    pub fn reset(&mut self) -> (r: Result<()>)
        requires
            old(self).wf(),
        ensures
            final(self).wf(),
            final(self).spec_path() == old(self).spec_path(),
            r is Ok ==> final(self).content() == Seq::<u8>::empty(),
            r matches Err(e) ==> {
                &&& e is Io
                &&& final(self).content() == old(self).content() || final(self).content() == Seq::<
                    u8,
                >::empty()
            },
            emptying(old(self).handle(), r is Ok),
    {
        let cut = self.file.set_len(0);
        assert(may_set_len(old(self).handle(), 0, cut is Ok));
        match cut {
            Ok(()) => {},
            Err(e) => {
                return Err(EngineError::Io(e));
            },
        }
        assert(self.content() =~= Seq::<u8>::empty());
        assert(is_emptied(old(self).handle(), self.file));
        match self.file.sync_data() {
            Ok(()) => Ok(()),
            Err(e) => Err(EngineError::Io(e)),
        }
    }

    /// Decodes the complete frames of a log file. A torn final frame is
    /// ignored.
    pub fn recover(file: &mut F) -> (r: Result<Vec<WalRecord>>)
        requires
            old(file).wf(),
        ensures
            final(file).wf(),
            final(file).files() == old(file).files(),
            final(file).current() == old(file).current(),
            ({
                let bytes = file_bytes(old(file).files(), old(file).current());
                let log = parse_log(bytes, 0);
                &&& r matches Ok(rs) ==> {
                    &&& is_wal1(bytes)
                    &&& log.stop is Torn
                    &&& record_models(rs@) == log.records
                }
                &&& r matches Err(e) ==> {
                    ||| e is Io && may_read(*old(file), false)
                    ||| !is_wal1(bytes) && e.is_message(unsupported_wal_text())
                    ||| is_wal1(bytes) && is_parse_error(e, log.stop)
                }
            }),
    {
        let bytes = match file.read_all() {
            Ok(b) => b,
            Err(e) => {
                return Err(EngineError::Io(e));
            },
        };
        match recover_bytes(bytes.as_slice()) {
            Ok((records, _valid)) => Ok(records),
            Err(e) => Err(e),
        }
    }
}

/// The sound part of a log ends within the log.
pub proof fn lemma_valid_in_range(buf: Seq<u8>, at: int)
    requires
        0 <= at <= buf.len(),
    ensures
        at <= parse_log(buf, at).valid <= buf.len(),
    decreases buf.len() - at,
{
    match parse_frame(buf, at) {
        Parsed::Frame(m, end) => {
            if at < end <= buf.len() {
                lemma_valid_in_range(buf, end);
            }
        },
        _ => {},
    }
}

} // verus!
