use vofa_next::decoder_block::{FieldType, RawField};

// Number conversions at the edge of the library: the library reads and lays
// out the raw integers; these helpers do the float conversion around them.
fn decode(ft: FieldType, bytes: &[u8]) -> Option<f32> {
    ft.decode_raw(bytes).map(|raw| match raw {
        RawField::Unsigned(u) => u as f32,
        RawField::Signed(v) => v as f32,
        RawField::Float32Bits(bits) => f32::from_bits(bits),
    })
}

fn encode(ft: FieldType, value: f32) -> Vec<u8> {
    let raw: u32 = match ft {
        FieldType::UInt8 | FieldType::Bytes => u32::from(value as u8),
        FieldType::Int8 => u32::from((value as i8) as u8),
        FieldType::UInt16LE | FieldType::UInt16BE => u32::from(value as u16),
        FieldType::Int16LE | FieldType::Int16BE => u32::from((value as i16) as u16),
        FieldType::UInt32LE | FieldType::UInt32BE => value as u32,
        FieldType::Int32LE | FieldType::Int32BE => (value as i32) as u32,
        FieldType::Float32LE | FieldType::Float32BE => value.to_bits(),
    };
    ft.encode_raw(raw)
}

#[test]
fn field_type_decode_u8_normal_and_max() {
    assert_eq!(decode(FieldType::UInt8, &[0xFF]), Some(255.0));
    assert_eq!(decode(FieldType::UInt8, &[0x00]), Some(0.0));
    assert_eq!(decode(FieldType::UInt8, &[]), None);
}

#[test]
fn field_type_decode_i8_negative() {
    assert_eq!(decode(FieldType::Int8, &[0xFF]), Some(-1.0));
    assert_eq!(decode(FieldType::Int8, &[0x80]), Some(-128.0));
    assert_eq!(decode(FieldType::Int8, &[0x7F]), Some(127.0));
}

#[test]
fn field_type_decode_uint16_endianness() {
    let bytes = [0x34, 0x12];
    assert_eq!(decode(FieldType::UInt16LE, &bytes), Some(f32::from(u16::from_le_bytes(bytes))));
    assert_eq!(decode(FieldType::UInt16BE, &bytes), Some(f32::from(u16::from_be_bytes(bytes))));
}

#[test]
fn field_type_decode_short_buffer_returns_none() {
    assert_eq!(decode(FieldType::UInt16LE, &[0x01]), None);
    assert_eq!(decode(FieldType::UInt32LE, &[0x01, 0x02]), None);
    assert_eq!(decode(FieldType::Float32BE, &[0x01, 0x02, 0x03]), None);
}

#[test]
fn field_type_decode_int16_sign_extension() {
    assert_eq!(decode(FieldType::Int16BE, &[0xFF, 0xFF]), Some(-1.0));
    assert_eq!(decode(FieldType::Int16LE, &[0xFF, 0xFF]), Some(-1.0));
}

#[test]
fn field_type_decode_float32() {
    let bytes = 1.5f32.to_le_bytes();
    assert_eq!(decode(FieldType::Float32LE, &bytes), Some(1.5));
    let bytes_be = 1.5f32.to_be_bytes();
    assert_eq!(decode(FieldType::Float32BE, &bytes_be), Some(1.5));
}

#[test]
fn field_type_decode_bytes_returns_first_byte() {
    assert_eq!(decode(FieldType::Bytes, &[0x42, 0x99, 0xAB]), Some(f32::from(0x42u8)));
    assert_eq!(decode(FieldType::Bytes, &[]), None);
}

#[test]
fn field_type_encode_uint_truncates() {
    assert_eq!(encode(FieldType::UInt8, 256.0), vec![255]);
    assert_eq!(encode(FieldType::UInt8, 255.0), vec![255]);
    assert_eq!(encode(FieldType::UInt8, 0.0), vec![0]);
}

#[test]
fn field_type_encode_int_signs() {
    assert_eq!(encode(FieldType::Int8, -1.0), vec![0xFF]);
    assert_eq!(encode(FieldType::Int8, 127.0), vec![0x7F]);
}

#[test]
fn field_type_encode_float32() {
    let bytes = encode(FieldType::Float32LE, 1.5);
    assert_eq!(bytes, 1.5f32.to_le_bytes().to_vec());
}

#[test]
fn field_type_encode_bytes_truncates_low_byte() {
    assert_eq!(encode(FieldType::Bytes, f32::from(0x34_u8)), vec![0x34]);
    assert_eq!(encode(FieldType::Bytes, 300.5), vec![255]);
}

#[test]
fn field_type_roundtrip_all_fixed_types() {
    for ft in [
        FieldType::UInt8,
        FieldType::Int8,
        FieldType::UInt16LE,
        FieldType::UInt16BE,
        FieldType::Int16LE,
        FieldType::Int16BE,
        FieldType::UInt32LE,
        FieldType::UInt32BE,
        FieldType::Int32LE,
        FieldType::Int32BE,
        FieldType::Float32LE,
        FieldType::Float32BE,
    ] {
        let v = 42.0f32;
        let bytes = encode(ft, v);
        assert_eq!(decode(ft, &bytes), Some(v), "{ft:?} round trip");
    }
}

#[test]
fn raw_field_values_exact() {
    assert_eq!(FieldType::UInt32BE.decode_raw(&[0x12, 0x34, 0x56, 0x78]), Some(RawField::Unsigned(0x1234_5678)));
    assert_eq!(FieldType::UInt32LE.decode_raw(&[0x12, 0x34, 0x56, 0x78]), Some(RawField::Unsigned(0x7856_3412)));
    assert_eq!(FieldType::Int32LE.decode_raw(&[0x00, 0x00, 0x00, 0x80]), Some(RawField::Signed(i32::MIN)));
    assert_eq!(FieldType::Int16BE.decode_raw(&[0x80, 0x00, 0x01]), Some(RawField::Signed(-32768)));
    assert_eq!(FieldType::Float32BE.decode_raw(&[0x3F, 0xC0, 0x00, 0x00]), Some(RawField::Float32Bits(0x3FC0_0000)));
}

#[test]
fn raw_field_layout_exact() {
    assert_eq!(FieldType::UInt16BE.encode_raw(0x1234), vec![0x12, 0x34]);
    assert_eq!(FieldType::Int16LE.encode_raw(0xABCD), vec![0xCD, 0xAB]);
    assert_eq!(FieldType::Int32BE.encode_raw(0x0102_0304), vec![0x01, 0x02, 0x03, 0x04]);
    assert_eq!(FieldType::UInt8.encode_raw(0x1FF), vec![0xFF]);
    let x = 0xDEAD_BEEF;
    assert_eq!(FieldType::UInt32LE.decode_raw(&FieldType::UInt32LE.encode_raw(x)), Some(RawField::Unsigned(x)));
}
