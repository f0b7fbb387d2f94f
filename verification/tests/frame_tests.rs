use vofa_next::frame::{now_us, ConnectionState, PortInfo, RawData, TransportStats};

#[test]
fn clock_reads_after_2020() {
    assert!(now_us() > 1_577_836_800_000_000);
}

#[test]
fn stats_default_is_zero() {
    let s = TransportStats::default();
    assert_eq!(s, TransportStats { rx_bytes: 0, tx_bytes: 0, rx_frames: 0, tx_frames: 0, rx_dropped: 0 });
}

#[test]
fn records_hold_their_values() {
    let r = RawData { timestamp: 5, data: vec![1, 2] };
    assert_eq!(r.data.len(), 2);
    let p = PortInfo {
        name: "COM3".into(),
        port_type: "usb".into(),
        vid: Some(0x1A86),
        pid: Some(0x7523),
        serial_number: None,
        manufacturer: None,
        product: None,
        description: None,
    };
    assert_eq!(p.vid, Some(0x1A86));
    assert_ne!(ConnectionState::Connected, ConnectionState::Error);
}
