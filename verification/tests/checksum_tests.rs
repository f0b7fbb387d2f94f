use vofa_next::checksum::ChecksumAlgorithm;

#[test]
fn byte_len_matches_variants() {
    assert_eq!(ChecksumAlgorithm::NoChecksum.byte_len(), 0);
    assert_eq!(ChecksumAlgorithm::Sum8.byte_len(), 1);
    assert_eq!(ChecksumAlgorithm::Xor8.byte_len(), 1);
    assert_eq!(ChecksumAlgorithm::Crc8.byte_len(), 1);
    assert_eq!(ChecksumAlgorithm::Lrc.byte_len(), 1);
    assert_eq!(ChecksumAlgorithm::Crc16Modbus.byte_len(), 2);
    assert_eq!(ChecksumAlgorithm::Crc16CCITT.byte_len(), 2);
    assert_eq!(ChecksumAlgorithm::Crc32.byte_len(), 4);
    assert_eq!(ChecksumAlgorithm::Custom.byte_len(), 0);
}

#[test]
fn byte_len_const_eval() {
    let n: usize = ChecksumAlgorithm::Crc32.byte_len();
    assert_eq!(n, 4);
}

#[test]
fn none_returns_empty() {
    assert!(ChecksumAlgorithm::NoChecksum.compute(&[1, 2, 3], None).is_empty());
    assert!(ChecksumAlgorithm::NoChecksum.verify(&[1, 2, 3], &[0xFF], None));
}

#[test]
fn custom_returns_empty_and_verifies_as_pass() {
    assert!(ChecksumAlgorithm::Custom.compute(b"12345", Some("ignored")).is_empty());
    assert!(ChecksumAlgorithm::Custom.verify(b"12345", &[0xDE, 0xAD], Some("ignored")));
}

#[test]
fn sum8_simple() {
    assert_eq!(ChecksumAlgorithm::Sum8.compute(&[1, 2, 3], None), vec![6]);
}

#[test]
fn sum8_wraps_at_u8_boundary() {
    assert_eq!(ChecksumAlgorithm::Sum8.compute(&[255, 1], None), vec![0]);
    assert_eq!(ChecksumAlgorithm::Sum8.compute(&[200, 200], None), vec![144]);
}

#[test]
fn sum8_empty_data() {
    assert_eq!(ChecksumAlgorithm::Sum8.compute(&[], None), vec![0]);
}

#[test]
fn sum8_verify_match() {
    assert!(ChecksumAlgorithm::Sum8.verify(&[1, 2, 3], &[6], None));
    assert!(!ChecksumAlgorithm::Sum8.verify(&[1, 2, 3], &[7], None));
}

#[test]
fn xor8_simple() {
    assert_eq!(ChecksumAlgorithm::Xor8.compute(&[0x0F, 0xF0], None), vec![0xFF]);
}

#[test]
fn xor8_empty_data() {
    assert_eq!(ChecksumAlgorithm::Xor8.compute(&[], None), vec![0]);
}

#[test]
fn xor8_all_zeros() {
    assert_eq!(ChecksumAlgorithm::Xor8.compute(&[0, 0, 0, 0], None), vec![0]);
}

#[test]
fn xor8_all_ff() {
    assert_eq!(ChecksumAlgorithm::Xor8.compute(&[0xFF; 4], None), vec![0]);
}

#[test]
fn lrc_simple_subtraction() {
    assert_eq!(ChecksumAlgorithm::Lrc.compute(&[1, 2, 3], None), vec![0u8.wrapping_sub(6)]);
}

#[test]
fn lrc_empty_data() {
    assert_eq!(ChecksumAlgorithm::Lrc.compute(&[], None), vec![0]);
}

#[test]
fn crc8_known_vector() {
    assert_eq!(ChecksumAlgorithm::Crc8.compute(b"123456789", None), vec![0xF4]);
}

#[test]
fn crc8_empty_data() {
    assert_eq!(ChecksumAlgorithm::Crc8.compute(&[], None), vec![0x00]);
}

#[test]
fn crc16_modbus_known_vector() {
    assert_eq!(ChecksumAlgorithm::Crc16Modbus.compute(b"123456789", None), vec![0x37, 0x4B]);
}

#[test]
fn crc16_modbus_empty_data() {
    assert_eq!(ChecksumAlgorithm::Crc16Modbus.compute(&[], None), vec![0xFF, 0xFF]);
}

#[test]
fn crc16_ccitt_known_vector() {
    assert_eq!(ChecksumAlgorithm::Crc16CCITT.compute(b"123456789", None), vec![0x29, 0xB1]);
}

#[test]
fn crc32_known_vector() {
    assert_eq!(
        ChecksumAlgorithm::Crc32.compute(b"123456789", None),
        vec![0x26, 0x39, 0xF4, 0xCB]
    );
}

#[test]
fn crc32_empty_data() {
    assert_eq!(ChecksumAlgorithm::Crc32.compute(&[], None), vec![0, 0, 0, 0]);
}

#[test]
fn crc32_verify() {
    let expected = vec![0x26, 0x39, 0xF4, 0xCB];
    assert!(ChecksumAlgorithm::Crc32.verify(b"123456789", &expected, None));
    assert!(!ChecksumAlgorithm::Crc32.verify(b"123456789", &[0, 0, 0, 0], None));
}

#[test]
fn lrc_plus_sum_is_zero() {
    let data = [0x12u8, 0x34, 0xFE, 0x01];
    let lrc = ChecksumAlgorithm::Lrc.compute(&data, None)[0];
    let sum = ChecksumAlgorithm::Sum8.compute(&data, None)[0];
    assert_eq!(lrc.wrapping_add(sum), 0);
}

#[test]
fn verify_accepts_computed_checksum() {
    let data = b"hello frame";
    for alg in [
        ChecksumAlgorithm::Sum8,
        ChecksumAlgorithm::Xor8,
        ChecksumAlgorithm::Crc8,
        ChecksumAlgorithm::Crc16Modbus,
        ChecksumAlgorithm::Crc16CCITT,
        ChecksumAlgorithm::Crc32,
        ChecksumAlgorithm::Lrc,
    ] {
        let cs = alg.compute(data, None);
        assert_eq!(cs.len(), alg.byte_len());
        assert!(alg.verify(data, &cs, None));
    }
}

#[test]
fn crc16_ccitt_empty_is_initial_value() {
    assert_eq!(ChecksumAlgorithm::Crc16CCITT.compute(&[], None), vec![0xFF, 0xFF]);
}
