use vofa_next::checksum::ChecksumAlgorithm;
use vofa_next::decoder_block::{AsciiBase, DecoderBlockDef, FieldType};
use vofa_next::protocol_config::ProtocolConfig;
use vofa_next::schema_frame::{
    assemble_frame, port_index, EncodeBlockDef, ProtocolSchema, SchemaPreset, TestDataLink,
};

#[test]
fn protocol_config_default_is_justfloat() {
    let p = ProtocolConfig::default();
    match p {
        ProtocolConfig::JustFloat { channels: Some(4) } => {}
        _ => panic!("default should be JustFloat{{channels: Some(4)}}"),
    }
}

#[test]
fn manual_channels_only_for_float_protocols() {
    assert_eq!(ProtocolConfig::JustFloat { channels: Some(2) }.manual_channels(), Some(2));
    assert_eq!(ProtocolConfig::FireWater { channels: Some(5) }.manual_channels(), Some(5));
    assert_eq!(ProtocolConfig::JustFloat { channels: None }.manual_channels(), None);
    assert_eq!(ProtocolConfig::RawData.manual_channels(), None);
    assert_eq!(ProtocolConfig::Slcan.manual_channels(), None);
}

#[test]
fn port_names_derivation_with_dedup() {
    let schema = ProtocolSchema {
        preset: SchemaPreset::Custom,
        legacy_config: None,
        decode: vec![
            DecoderBlockDef::Header { id: "h".into(), hex: "AA".into(), match_id: None },
            DecoderBlockDef::Field {
                id: "f0".into(),
                field_type: FieldType::UInt8,
                port_name: "v0".into(),
                length_ref: None,
                match_id: None,
            },
            DecoderBlockDef::Field {
                id: "f1".into(),
                field_type: FieldType::UInt8,
                port_name: "v0".into(),
                length_ref: None,
                match_id: None,
            },
            DecoderBlockDef::Bitfield {
                id: "b0".into(),
                byte_offset: 1,
                bit_offset: 0,
                bit_length: 4,
                is_signed: false,
                port_name: "flags".into(),
                match_id: None,
            },
            DecoderBlockDef::Csv { separator: ",".into(), ports: vec!["c0".into(), "c1".into()] },
            DecoderBlockDef::AsciiField { port_name: "hex_id".into(), base: AsciiBase::Hex, digits: 2 },
        ],
        encode: None,
    };
    let ports = schema.port_names();
    assert_eq!(ports, vec!["v0", "flags", "c0", "c1", "hex_id"]);
}

#[test]
fn partial_eq_respects_decode_and_legacy() {
    let a = ProtocolSchema {
        preset: SchemaPreset::JustFloat,
        legacy_config: Some(ProtocolConfig::JustFloat { channels: Some(4) }),
        decode: vec![DecoderBlockDef::Field {
            id: "f".into(),
            field_type: FieldType::UInt8,
            port_name: "v".into(),
            length_ref: None,
            match_id: None,
        }],
        encode: None,
    };
    let b = ProtocolSchema {
        legacy_config: Some(ProtocolConfig::JustFloat { channels: Some(8) }),
        ..a.clone()
    };
    assert_ne!(a, b);

    let c = ProtocolSchema { decode: vec![], ..a.clone() };
    assert_ne!(a, c);

    let d = a.clone();
    assert_eq!(a, d);
}

#[test]
fn test_data_link_constructor() {
    let link = TestDataLink::new(ProtocolConfig::JustFloat { channels: Some(2) });
    assert!(link.schema.is_none());
    match link.protocol {
        ProtocolConfig::JustFloat { channels: Some(2) } => {}
        _ => panic!("protocol mismatch"),
    }
}

#[test]
fn port_names_csv_repeats_collapse() {
    let schema = ProtocolSchema {
        preset: SchemaPreset::Custom,
        legacy_config: None,
        decode: vec![
            DecoderBlockDef::Csv {
                separator: ";".into(),
                ports: vec!["x".into(), "y".into(), "x".into()],
            },
            DecoderBlockDef::AsciiField { port_name: "y".into(), base: AsciiBase::Dec, digits: 3 },
        ],
        encode: None,
    };
    assert_eq!(schema.port_names(), vec!["x", "y"]);
}

#[test]
fn assemble_const_hex_blocks() {
    let encode = vec![EncodeBlockDef::ConstHex { hex: "AA BB CC".into() }];
    let fields: Vec<Vec<u8>> = vec![vec![]];
    assert_eq!(assemble_frame(&encode, &fields), vec![0xAA, 0xBB, 0xCC]);
}

#[test]
fn assemble_checksum_covers_previous_bytes() {
    let encode = vec![
        EncodeBlockDef::ConstHex { hex: "01 02".into() },
        EncodeBlockDef::Checksum { algorithm: ChecksumAlgorithm::Sum8, custom_script: None },
    ];
    let fields: Vec<Vec<u8>> = vec![vec![], vec![]];
    assert_eq!(assemble_frame(&encode, &fields), vec![0x01, 0x02, 0x03]);
}

#[test]
fn assemble_value_blocks_use_given_bytes() {
    let encode = vec![
        EncodeBlockDef::VarRef { port_name: "a".into(), field_type: FieldType::UInt16BE },
        EncodeBlockDef::TypedConst { value: "42".into(), field_type: FieldType::UInt8 },
        EncodeBlockDef::Checksum { algorithm: ChecksumAlgorithm::Xor8, custom_script: None },
        EncodeBlockDef::ConstHex { hex: "0x7F".into() },
    ];
    let fields: Vec<Vec<u8>> = vec![vec![0x12, 0x34], vec![42], vec![], vec![]];
    assert_eq!(assemble_frame(&encode, &fields), vec![0x12, 0x34, 42, 0x12 ^ 0x34 ^ 42, 0x7F]);
}

#[test]
fn port_index_finds_first_match() {
    let ports: Vec<String> = vec!["a".into(), "b".into(), "a".into()];
    assert_eq!(port_index(&ports, &"a".to_string()), Some(0));
    assert_eq!(port_index(&ports, &"b".to_string()), Some(1));
    assert_eq!(port_index(&ports, &"missing".to_string()), None);
}
