use vofa_next::can::{CanBuffer, CanDirection, CanFrame};

fn make_rx_frame(id: u32, data: Vec<u8>) -> CanFrame {
    CanFrame { timestamp: 0, id, extended: false, rtr: false, dlc: data.len() as u8, data, direction: CanDirection::Rx }
}

#[test]
fn can_tests_test_can_buffer_new_empty() {
    let buf = CanBuffer::new(10);
    assert_eq!(buf.len(), 0);
    assert!(buf.is_empty());
}

#[test]
fn can_tests_test_can_buffer_push_and_len() {
    let mut buf = CanBuffer::new(10);
    buf.push(make_rx_frame(0x100, vec![0x01]));
    assert_eq!(buf.len(), 1);
    assert!(!buf.is_empty());
    buf.push(make_rx_frame(0x200, vec![0x02]));
    assert_eq!(buf.len(), 2);
}

#[test]
fn can_tests_test_can_buffer_get_recent_basic() {
    let mut buf = CanBuffer::new(10);
    buf.push(make_rx_frame(0x100, vec![0x01]));
    buf.push(make_rx_frame(0x200, vec![0x02]));
    buf.push(make_rx_frame(0x300, vec![0x03]));
    let recent = buf.get_recent(2);
    assert_eq!(recent.len(), 2);
    assert_eq!(recent[0].id, 0x200);
    assert_eq!(recent[1].id, 0x300);
}

#[test]
fn can_tests_test_can_buffer_get_recent_returns_in_time_order() {
    let mut buf = CanBuffer::new(10);
    for i in 0..5u32 {
        buf.push(make_rx_frame(0x100 + i, vec![i as u8]));
    }
    let recent = buf.get_recent(3);
    assert_eq!(recent.len(), 3);
    assert_eq!(recent[0].id, 0x102);
    assert_eq!(recent[1].id, 0x103);
    assert_eq!(recent[2].id, 0x104);
}

#[test]
fn can_tests_test_can_buffer_get_recent_count_greater_than_len() {
    let mut buf = CanBuffer::new(10);
    buf.push(make_rx_frame(0x100, vec![0x01]));
    buf.push(make_rx_frame(0x200, vec![0x02]));
    let recent = buf.get_recent(100);
    assert_eq!(recent.len(), 2);
    assert_eq!(recent[0].id, 0x100);
    assert_eq!(recent[1].id, 0x200);
}

#[test]
fn can_tests_test_can_buffer_get_recent_zero() {
    let mut buf = CanBuffer::new(10);
    buf.push(make_rx_frame(0x100, vec![0x01]));
    let recent = buf.get_recent(0);
    assert_eq!(recent.len(), 0);
}

#[test]
fn can_tests_test_can_buffer_get_recent_empty_buffer() {
    let buf = CanBuffer::new(10);
    let recent = buf.get_recent(5);
    assert_eq!(recent.len(), 0);
}

#[test]
fn can_tests_test_can_buffer_clear() {
    let mut buf = CanBuffer::new(10);
    buf.push(make_rx_frame(0x100, vec![0x01]));
    buf.push(make_rx_frame(0x200, vec![0x02]));
    assert_eq!(buf.len(), 2);
    buf.clear();
    assert_eq!(buf.len(), 0);
    assert!(buf.is_empty());
}

#[test]
fn can_tests_test_can_buffer_clear_idempotent() {
    let mut buf = CanBuffer::new(10);
    buf.clear();
    buf.clear();
    assert!(buf.is_empty());
}

#[test]
fn can_tests_test_can_buffer_overflow_drops_oldest() {
    let mut buf = CanBuffer::new(3);
    buf.push(make_rx_frame(0x100, vec![0x01]));
    buf.push(make_rx_frame(0x200, vec![0x02]));
    buf.push(make_rx_frame(0x300, vec![0x03]));
    buf.push(make_rx_frame(0x400, vec![0x04]));
    assert_eq!(buf.len(), 3);
    let all = buf.get_recent(3);
    assert_eq!(all[0].id, 0x200);
    assert_eq!(all[1].id, 0x300);
    assert_eq!(all[2].id, 0x400);
}

#[test]
fn can_tests_test_can_buffer_overflow_preserves_recent() {
    let mut buf = CanBuffer::new(5);
    for i in 0..10u32 {
        buf.push(make_rx_frame(0x100 + i, vec![i as u8]));
    }
    assert_eq!(buf.len(), 5);
    let recent = buf.get_recent(3);
    assert_eq!(recent.len(), 3);
    assert_eq!(recent[0].id, 0x107);
    assert_eq!(recent[1].id, 0x108);
    assert_eq!(recent[2].id, 0x109);
}

#[test]
fn can_tests_test_can_buffer_max_size_one() {
    let mut buf = CanBuffer::new(1);
    buf.push(make_rx_frame(0x100, vec![0x01]));
    assert_eq!(buf.len(), 1);
    buf.push(make_rx_frame(0x200, vec![0x02]));
    assert_eq!(buf.len(), 1);
    let recent = buf.get_recent(1);
    assert_eq!(recent[0].id, 0x200);
}

#[test]
fn can_tests_test_can_buffer_preserves_frame_fields() {
    let mut buf = CanBuffer::new(10);
    let sent = CanFrame {
        timestamp: 12345,
        id: 0x7FF,
        extended: true,
        rtr: true,
        dlc: 8,
        data: vec![0xDE, 0xAD, 0xBE, 0xEF, 0x12, 0x34, 0x56, 0x78],
        direction: CanDirection::Tx,
    };
    buf.push(sent.clone());
    let recent = buf.get_recent(1);
    assert_eq!(recent.len(), 1);
    let f = &recent[0];
    assert_eq!(f.timestamp, sent.timestamp);
    assert_eq!(f.id, sent.id);
    assert_eq!(f.extended, sent.extended);
    assert_eq!(f.rtr, sent.rtr);
    assert_eq!(f.dlc, sent.dlc);
    assert_eq!(f.data, sent.data);
    assert_eq!(f.direction, sent.direction);
}
