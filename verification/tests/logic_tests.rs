use vofa_next::logic::{
    DecodedBuffer, DecodedEvent, DecodedEventFilter, I2cEvent, LogicBuffer, LogicSample,
    LogicSampleFilter,
};

fn sample(t: u64, ch: u32) -> LogicSample {
    LogicSample { timestamp: t, channels: ch, channel_count: 8 }
}

#[test]
fn logic_buffer_keeps_latest_and_versions() {
    let mut b = LogicBuffer::new(3);
    for t in 0..5u64 {
        b.push(sample(t, t as u32));
    }
    assert_eq!(b.len(), 3);
    assert_eq!(b.version(), 5);
    let r = b.get_recent(2);
    assert_eq!(r.len(), 2);
    assert_eq!(r[0].timestamp, 3);
    assert_eq!(r[1].timestamp, 4);
}

#[test]
fn logic_buffer_cursor_reads() {
    let mut b = LogicBuffer::new(3);
    for t in 0..5u64 {
        b.push(sample(t, 0));
    }
    let (items, next, dropped) = b.drain_from(0, 10);
    assert_eq!(items.len(), 3);
    assert_eq!(items[0].timestamp, 2);
    assert_eq!(next, 5);
    assert_eq!(dropped, 2);
    let (items, next, dropped) = b.drain_from(3, 1);
    assert_eq!(items.len(), 1);
    assert_eq!(items[0].timestamp, 3);
    assert_eq!(next, 4);
    assert_eq!(dropped, 0);
    let (items, next, _) = b.drain_from(5, 10);
    assert!(items.is_empty());
    assert_eq!(next, 5);
}

#[test]
fn logic_buffer_shrink_and_clear() {
    let mut b = LogicBuffer::new(10);
    for t in 0..6u64 {
        b.push(sample(t, 0));
    }
    b.set_max_size(2);
    assert_eq!(b.len(), 2);
    assert_eq!(b.get_recent(10)[0].timestamp, 4);
    b.clear();
    assert!(b.is_empty());
    assert_eq!(b.version(), 6);
}

#[test]
fn sample_filter_by_mask() {
    let f = LogicSampleFilter { channel_mask: Some(0b0110), channel_value: Some(0b0100) };
    assert!(f.matches(&sample(0, 0b1100)));
    assert!(!f.matches(&sample(0, 0b0110)));
    let f = LogicSampleFilter { channel_mask: Some(0b1), channel_value: None };
    assert!(f.matches(&sample(0, 0b10)));
    assert!(!f.matches(&sample(0, 0b11)));
    assert!(LogicSampleFilter::default().matches(&sample(0, 0xFFFF)));
}

#[test]
fn event_filter_by_kind_and_bytes() {
    let uart = DecodedEvent::Uart { timestamp: 1, byte: 0x41, parity_ok: true };
    let spi = DecodedEvent::Spi { timestamp: 2, mosi: 0x12, miso: 0x34 };
    let i2c = DecodedEvent::I2c { timestamp: 3, event: I2cEvent::Address { addr: 0x50, read: false, ack: true } };
    let f = DecodedEventFilter { kind: Some("UART".into()), byte_pattern: None };
    assert!(f.matches(&uart));
    assert!(!f.matches(&spi));
    let f = DecodedEventFilter { kind: None, byte_pattern: Some(vec![0x12, 0x34]) };
    assert!(f.matches(&spi));
    assert!(!f.matches(&uart));
    let f = DecodedEventFilter { kind: Some("i2C".into()), byte_pattern: Some(vec![0x50]) };
    assert!(f.matches(&i2c));
    let start = DecodedEvent::I2c { timestamp: 4, event: I2cEvent::Start };
    assert!(!f.matches(&start));
    assert!(DecodedEventFilter::default().matches(&start));
}

#[test]
fn decoded_buffer_capacity_at_least_one() {
    let mut b = DecodedBuffer::new(4);
    b.push(DecodedEvent::Uart { timestamp: 1, byte: 1, parity_ok: true });
    b.push(DecodedEvent::Uart { timestamp: 2, byte: 2, parity_ok: true });
    b.set_max_size(0);
    assert_eq!(b.len(), 1);
    match b.get_recent(5)[0] {
        DecodedEvent::Uart { timestamp, .. } => assert_eq!(timestamp, 2),
        _ => panic!("wrong event"),
    }
    let (items, next, dropped) = b.drain_from(0, 5);
    assert_eq!(items.len(), 1);
    assert_eq!(next, 2);
    assert_eq!(dropped, 1);
}
