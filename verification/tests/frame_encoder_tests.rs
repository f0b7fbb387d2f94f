use vofa_next::checksum::ChecksumAlgorithm;
use vofa_next::decoder_block::{DecoderBlockDef, DecoderChecksumCover, DecoderChecksumPosition, FieldType};
use vofa_next::frame_encoder::{BlockInput, FrameDecoderTestData};

fn header(hex: &str) -> DecoderBlockDef {
    DecoderBlockDef::Header { id: "h".into(), hex: hex.into(), match_id: None }
}

fn field(port: &str, ft: FieldType, match_id: Option<i64>) -> DecoderBlockDef {
    DecoderBlockDef::Field { id: port.into(), field_type: ft, port_name: port.into(), length_ref: None, match_id }
}

fn checksum(alg: ChecksumAlgorithm, cover: DecoderChecksumCover, start: Option<u32>, pos: DecoderChecksumPosition) -> DecoderBlockDef {
    DecoderBlockDef::Checksum {
        id: "cs".into(),
        algorithm: alg,
        custom_script: None,
        cover,
        cover_start: start,
        cover_end: None,
        position: pos,
        match_id: None,
    }
}

#[test]
fn header_field_tail_layout() {
    let blocks = vec![
        header("AA"),
        field("ch0", FieldType::UInt16LE, None),
        DecoderBlockDef::Tail { id: "t".into(), hex: "BB".into(), match_id: None },
    ];
    let inputs = vec![BlockInput::Nothing, BlockInput::Encoded(vec![0x02, 0x01]), BlockInput::Nothing];
    let (bytes, cs) = FrameDecoderTestData::encode_blocks(&blocks, &inputs).unwrap();
    assert_eq!(bytes, vec![0xAA, 0x02, 0x01, 0xBB]);
    assert!(cs.is_empty());
}

#[test]
fn appended_checksum_covers_bytes_after_header() {
    let blocks = vec![
        header("AA"),
        field("v", FieldType::UInt16BE, None),
        checksum(ChecksumAlgorithm::Sum8, DecoderChecksumCover::AllPrior, None, DecoderChecksumPosition::Append),
    ];
    let inputs = vec![BlockInput::Nothing, BlockInput::Encoded(vec![1, 2]), BlockInput::Nothing];
    let (bytes, cs) = FrameDecoderTestData::encode_blocks(&blocks, &inputs).unwrap();
    assert_eq!(bytes, vec![0xAA, 1, 2, 3]);
    assert_eq!(cs, vec![(3, 1)]);
}

#[test]
fn prepended_checksum_overwrites_first_bytes_after_header() {
    let blocks = vec![
        header("AA"),
        checksum(ChecksumAlgorithm::Sum8, DecoderChecksumCover::AllPrior, None, DecoderChecksumPosition::Prepend),
        field("v", FieldType::UInt16BE, None),
    ];
    let inputs = vec![BlockInput::Nothing, BlockInput::Nothing, BlockInput::Encoded(vec![5, 6])];
    let (bytes, cs) = FrameDecoderTestData::encode_blocks(&blocks, &inputs).unwrap();
    assert_eq!(bytes, vec![0xAA, 6, 6]);
    assert_eq!(cs, vec![(1, 1)]);
}

#[test]
fn bitfield_is_written_msb_first() {
    let blocks = vec![
        header("AA"),
        DecoderBlockDef::Bitfield {
            id: "b".into(),
            byte_offset: 0,
            bit_offset: 4,
            bit_length: 4,
            is_signed: false,
            port_name: "b".into(),
            match_id: None,
        },
    ];
    let inputs = vec![BlockInput::Nothing, BlockInput::Bits(0b1010)];
    let (bytes, _) = FrameDecoderTestData::encode_blocks(&blocks, &inputs).unwrap();
    assert_eq!(bytes, vec![0xAA, 0x0A]);
}

#[test]
fn bitfield_across_byte_boundary() {
    let blocks = vec![DecoderBlockDef::Bitfield {
        id: "b".into(),
        byte_offset: 1,
        bit_offset: 6,
        bit_length: 4,
        is_signed: false,
        port_name: "b".into(),
        match_id: None,
    }];
    let inputs = vec![BlockInput::Bits(0b1111)];
    let (bytes, _) = FrameDecoderTestData::encode_blocks(&blocks, &inputs).unwrap();
    assert_eq!(bytes, vec![0x00, 0x03, 0xC0]);
}

#[test]
fn wide_bitfield_cannot_be_encoded() {
    let blocks = vec![DecoderBlockDef::Bitfield {
        id: "b".into(),
        byte_offset: 0,
        bit_offset: 0,
        bit_length: 33,
        is_signed: false,
        port_name: "b".into(),
        match_id: None,
    }];
    assert!(FrameDecoderTestData::encode_blocks(&blocks, &[BlockInput::Bits(1)]).is_none());
}

#[test]
fn blocks_follow_the_frame_id() {
    let blocks = vec![
        DecoderBlockDef::Id { id: "i".into(), field_type: FieldType::UInt8, port_name: None },
        field("a", FieldType::UInt8, Some(1)),
        field("b", FieldType::UInt8, Some(2)),
    ];
    let inputs = vec![BlockInput::Integer(2), BlockInput::Encoded(vec![0x11]), BlockInput::Encoded(vec![0x22])];
    let (bytes, _) = FrameDecoderTestData::encode_blocks(&blocks, &inputs).unwrap();
    assert_eq!(bytes, vec![2, 0x22]);
}

#[test]
fn bytes_field_takes_its_length_from_a_length_block() {
    let blocks = vec![
        DecoderBlockDef::Length {
            id: "len".into(),
            field_type: FieldType::UInt16BE,
            port_name: None,
            unit: None,
            match_id: None,
        },
        DecoderBlockDef::Field {
            id: "payload".into(),
            field_type: FieldType::Bytes,
            port_name: "p".into(),
            length_ref: Some("len".into()),
            match_id: None,
        },
    ];
    let inputs = vec![BlockInput::Integer(3), BlockInput::Seed(0xFE)];
    let (bytes, _) = FrameDecoderTestData::encode_blocks(&blocks, &inputs).unwrap();
    assert_eq!(bytes, vec![0x00, 0x03, 0xFE, 0xFF, 0x00]);
}

#[test]
fn checksum_range_outside_frame_fails() {
    let blocks = vec![
        header("AA"),
        checksum(ChecksumAlgorithm::Xor8, DecoderChecksumCover::Range, Some(10), DecoderChecksumPosition::Append),
    ];
    assert!(FrameDecoderTestData::encode_blocks(&blocks, &[BlockInput::Nothing, BlockInput::Nothing]).is_none());
}

#[test]
fn header_with_illegal_character_writes_no_bytes() {
    let blocks = vec![header("\u{20ac}1"), header("AA")];
    let (frame, checksums) =
        FrameDecoderTestData::encode_blocks(&blocks, &[BlockInput::Nothing, BlockInput::Nothing]).unwrap();
    assert_eq!(frame, vec![0xAA]);
    assert!(checksums.is_empty());
}

#[test]
fn integer_widths() {
    let blocks = vec![
        DecoderBlockDef::Id { id: "i".into(), field_type: FieldType::UInt32LE, port_name: None },
        DecoderBlockDef::Length { id: "l".into(), field_type: FieldType::Int32BE, port_name: None, unit: None, match_id: None },
    ];
    let inputs = vec![BlockInput::Integer(0x0102_0304), BlockInput::Integer(0x0A0B_0C0D)];
    let (bytes, _) = FrameDecoderTestData::encode_blocks(&blocks, &inputs).unwrap();
    assert_eq!(bytes, vec![4, 3, 2, 1, 0x0A, 0x0B, 0x0C, 0x0D]);
}

#[test]
fn corrupt_checksum_flips_checksum_or_last_byte() {
    let mut d = vec![1, 2, 3, 4];
    FrameDecoderTestData::corrupt_checksum(&mut d, &[(1, 1), (2, 2)]);
    assert_eq!(d, vec![1, 2, !3, 4]);
    let mut d = vec![1, 2];
    FrameDecoderTestData::corrupt_checksum(&mut d, &[]);
    assert_eq!(d, vec![1, !2]);
    let mut d: Vec<u8> = vec![];
    FrameDecoderTestData::corrupt_checksum(&mut d, &[(0, 1)]);
    assert!(d.is_empty());
}
