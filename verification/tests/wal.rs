use bytes::Bytes;
use hatp_engine::file_io::FakeFileIO;
use hatp_engine::wal::{
    decode_all, encode_batch, encode_mutations, recover_bytes, OpType, Wal, WalRecord,
    FRAME_HEADER_LEN,
};
use hatp_engine::{EngineError, Mutation};

#[test]
fn roundtrip_single_put() {
    let record = WalRecord::put(
        1,
        Bytes::from_static(b"hello"),
        Bytes::from_static(b"world"),
    );
    let mut buf = Vec::new();
    encode_batch(&mut buf, &[record], 1).unwrap();

    let (decoded, valid) = decode_all(&buf).unwrap();
    assert_eq!(valid, buf.len() as u64);
    assert_eq!(decoded.len(), 2);
    assert_eq!(decoded[0].tx_id, 1);
    assert_eq!(decoded[0].op, OpType::Put);
    assert_eq!(&decoded[0].key[..], b"hello");
    assert_eq!(decoded[0].value.as_ref().unwrap().len(), 5);
    assert_eq!(&decoded[1].op, &OpType::Commit);
}

#[test]
fn roundtrip_delete_then_commit() {
    let r = WalRecord::delete(7, Bytes::from_static(b"gone"));
    let mut buf = Vec::new();
    encode_batch(&mut buf, &[r], 7).unwrap();
    let (decoded, valid) = decode_all(&buf).unwrap();
    assert_eq!(valid, buf.len() as u64);
    assert_eq!(decoded.len(), 2);
    assert_eq!(decoded[0].op, OpType::Delete);
    assert!(decoded[0].value.is_none());
    assert_eq!(decoded[1].op, OpType::Commit);
}

#[test]
fn wal_torn_tail_is_truncated() {
    let r = WalRecord::put(42, Bytes::from_static(b"x"), Bytes::from_static(b"y"));
    let mut buf = Vec::new();
    encode_batch(&mut buf, &[r], 42).unwrap();
    // Lop off the last byte of the trailing CRC + one more byte
    // (a clean torn write should return Ok(records) with
    // `valid` pointing past the last complete frame).
    let lopped = &buf[..buf.len() - 2];
    let (_decoded, valid) = decode_all(lopped).unwrap();
    // The valid offset should be 2 bytes shorter than `buf.len()` —
    // i.e. the decode walked the complete frame, found a torn CRC
    // and stopped without erroring.
    assert!(valid as usize <= lopped.len());
}

#[test]
fn corrupted_crc_returns_truncate_offset() {
    let r = WalRecord::put(9, Bytes::from_static(b"k"), Bytes::from_static(b"v"));
    let mut buf = Vec::new();
    encode_batch(&mut buf, &[r], 9).unwrap();
    // Flip a bit in the body to corrupt the CRC.
    let corrupt_at = FRAME_HEADER_LEN;
    buf[corrupt_at] ^= 0x01;
    let (_decoded, valid) = decode_all(&buf).unwrap();
    assert!(valid as usize <= corrupt_at);
}

#[test]
fn a_torn_commit_keeps_the_records_before_it() {
    let put = WalRecord::put(3, Bytes::from_static(b"a"), Bytes::from_static(b"1"));
    let mut first = Vec::new();
    encode_batch(&mut first, &[put], 3).unwrap();
    let whole = first.len() as u64;
    let mut buf = first.clone();
    encode_mutations(&mut buf, 4, &[Mutation::Delete { key: Bytes::from_static(b"a") }]).unwrap();
    let (records, valid) = decode_all(&buf[..first.len() + 5]).unwrap();
    assert_eq!(records.len(), 2);
    assert_eq!(valid, whole);
}

#[test]
fn another_format_is_refused() {
    let err = recover_bytes(b"ARROW1").unwrap_err();
    assert!(matches!(err, EngineError::CorruptMessage(_)));
    assert!(recover_bytes(b"").unwrap().0.is_empty());
    assert!(matches!(OpType::decode(9), Err(EngineError::CorruptMessage(_))));
    assert_eq!(OpType::decode(OpType::Abort.encode()).unwrap(), OpType::Abort);
}

#[test]
fn a_log_reads_back_what_was_appended() {
    let mut file = FakeFileIO::new("hatp.wal");
    assert!(Wal::<FakeFileIO>::recover(&mut file).unwrap().is_empty());
    let mut wal = Wal::open("hatp.wal", file).unwrap();
    let put = WalRecord::put(5, Bytes::from_static(b"k"), Bytes::from_static(b"v"));
    wal.append_batch_commit_and_sync(&[put], 5).unwrap();
    let size = wal.current_size();
    assert!(size > 0);
    wal.reset().unwrap();
    assert_eq!(wal.current_size(), 0);
}

#[test]
fn a_group_of_batches_is_one_append() {
    let mut wal = Wal::open("g.wal", FakeFileIO::new("g.wal")).unwrap();
    let before = wal.current_size();
    let first = [WalRecord::put(1, Bytes::from_static(b"a"), Bytes::from_static(b"1"))];
    let second = [WalRecord::delete(2, Bytes::from_static(b"a"))];
    let written = wal.append_multi_batch_commit_and_sync(&[(1, &first[..]), (2, &second[..])]);
    let mut expected = Vec::new();
    encode_batch(&mut expected, &first, 1).unwrap();
    encode_batch(&mut expected, &second, 2).unwrap();
    assert_eq!(written.unwrap(), expected.len() as u64);
    assert_eq!(wal.current_size() - before, expected.len() as u64);
    let (records, valid) = decode_all(&expected).unwrap();
    assert_eq!(valid, expected.len() as u64);
    let ops: Vec<OpType> = records.iter().map(|r| r.op).collect();
    assert_eq!(ops, vec![OpType::Put, OpType::Commit, OpType::Delete, OpType::Commit]);
}
