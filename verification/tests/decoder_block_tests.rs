use vofa_next::decoder_block::{DecoderBlockDef, FieldType};

#[test]
fn field_type_byte_len() {
    assert_eq!(FieldType::UInt8.byte_len(), Some(1));
    assert_eq!(FieldType::Int8.byte_len(), Some(1));
    assert_eq!(FieldType::UInt16LE.byte_len(), Some(2));
    assert_eq!(FieldType::Float32BE.byte_len(), Some(4));
    assert_eq!(FieldType::Bytes.byte_len(), None);
}

#[test]
fn decoder_block_id_returns_id_for_typed_blocks() {
    let b = DecoderBlockDef::Header { id: "h0".into(), hex: "AA".into(), match_id: None };
    assert_eq!(b.id(), "h0");

    let b = DecoderBlockDef::Csv { separator: ",".into(), ports: vec!["a".into()] };
    assert_eq!(b.id(), "");
}

#[test]
fn decoder_block_match_id_some_and_none() {
    let b = DecoderBlockDef::Field {
        id: "f0".into(),
        field_type: FieldType::UInt8,
        port_name: "v".into(),
        length_ref: None,
        match_id: Some(42),
    };
    assert_eq!(b.match_id(), Some(42));

    let b = DecoderBlockDef::Id { id: "i".into(), field_type: FieldType::UInt8, port_name: None };
    assert_eq!(b.match_id(), None);
}

#[test]
fn decoder_block_output_port_name_default() {
    let b = DecoderBlockDef::Length {
        id: "l".into(),
        field_type: FieldType::UInt16LE,
        port_name: None,
        unit: None,
        match_id: None,
    };
    assert_eq!(b.output_port_name(), Some("length"));

    let b = DecoderBlockDef::Id { id: "i".into(), field_type: FieldType::UInt8, port_name: None };
    assert_eq!(b.output_port_name(), Some("id_value"));

    let b = DecoderBlockDef::Header { id: "h".into(), hex: "AA".into(), match_id: None };
    assert_eq!(b.output_port_name(), None);
}

#[test]
fn decoder_block_partial_eq() {
    let a = DecoderBlockDef::Header { id: "h".into(), hex: "AA".into(), match_id: None };
    let b = DecoderBlockDef::Header { id: "h".into(), hex: "AA".into(), match_id: None };
    assert_eq!(a, b);

    let c = DecoderBlockDef::Header { id: "h".into(), hex: "BB".into(), match_id: None };
    assert_ne!(a, c);
}

#[test]
fn output_port_name_explicit_ports() {
    let b = DecoderBlockDef::Length {
        id: "l".into(),
        field_type: FieldType::UInt8,
        port_name: Some("len".into()),
        unit: None,
        match_id: None,
    };
    assert_eq!(b.output_port_name(), Some("len"));
    let b = DecoderBlockDef::Bitfield {
        id: "b".into(),
        byte_offset: 0,
        bit_offset: 0,
        bit_length: 3,
        is_signed: false,
        port_name: "flags".into(),
        match_id: Some(7),
    };
    assert_eq!(b.output_port_name(), Some("flags"));
    assert_eq!(b.match_id(), Some(7));
    assert_eq!(b.id(), "b");
}
