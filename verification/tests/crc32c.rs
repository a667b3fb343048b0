use hatp_engine::crc32c::{crc32c, crc32c_unfinalized, crc32c_with_state, Hasher};

/// Reference CRC32C values from the iSCSI test vectors (Castagnoli polynomial).
const EMPTY: u32 = 0x0000_0000;
const NINE_BYTES_123456789: u32 = 0xE306_9283;
const THIRTYTWO_A: u32 = 0xB980_F10B; // "a" * 32

#[test]
fn empty() {
    assert_eq!(crc32c(b""), EMPTY);
}

#[test]
fn iscsi_32_a() {
    let s = "a".repeat(32);
    assert_eq!(crc32c(s.as_bytes()), THIRTYTWO_A);
}

#[test]
fn iscsi_123456789() {
    assert_eq!(crc32c(b"123456789"), NINE_BYTES_123456789);
}

#[test]
fn streaming_matches_oneshot() {
    let mut h = Hasher::new();
    h.update(b"1234");
    h.update(b"56789");
    assert_eq!(h.finalize(), crc32c(b"123456789"));
}

#[test]
fn the_register_can_be_carried_on() {
    let half = crc32c_unfinalized(b"1234");
    assert_eq!(crc32c_with_state(b"56789", half) ^ 0xFFFF_FFFF, NINE_BYTES_123456789);
}

#[test]
fn every_flipped_bit_is_detected() {
    let data = vec![0x5Au8; 1500];
    let whole = crc32c(&data);
    for at in [0usize, 1, 7, 511, 1023, 1024, 1499] {
        for bit in 0..8u32 {
            let mut changed = data.clone();
            changed[at] ^= 1 << bit;
            assert_ne!(crc32c(&changed), whole);
        }
    }
}

#[test]
fn long_and_short_inputs_agree() {
    let data: Vec<u8> = (0..4096u32).map(|i| (i % 251) as u8).collect();
    let mut pieces = Hasher::new();
    for piece in data.chunks(100) {
        pieces.update(piece);
    }
    assert_eq!(pieces.finalize(), crc32c(&data));
}
