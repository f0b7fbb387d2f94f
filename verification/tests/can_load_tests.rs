use vofa_next::can::{CanDirection, CanFrame};
use vofa_next::can_load::{CanLoadWindow, LoadSample};

fn load_frame(id: u32, dlc: u8, timestamp: u64) -> CanFrame {
    CanFrame { timestamp, id, extended: false, rtr: false, dlc, data: vec![0; dlc as usize], direction: CanDirection::Rx }
}

fn ext_frame(dlc: u8, timestamp: u64) -> CanFrame {
    CanFrame { timestamp, id: 0x12345678, extended: true, rtr: false, dlc, data: vec![0; dlc as usize], direction: CanDirection::Rx }
}

#[test]
fn load_window_empty() {
    let w = CanLoadWindow::new(1_000_000);
    assert_eq!(w.frame_count(), 0);
    assert_eq!(w.total_bits(), 0);
    assert_eq!(w.total_bytes(), 0);
    assert!(w.per_id().is_empty());
    assert_eq!(w.window_us(), 1_000_000);
}

#[test]
fn load_window_zero_window_becomes_one() {
    let w = CanLoadWindow::new(0);
    assert_eq!(w.window_us(), 1);
}

#[test]
fn load_window_single_frame() {
    let mut w = CanLoadWindow::new(1_000_000);
    let left = w.push_frame(&load_frame(0x123, 4, 1_000_000));
    assert!(left.is_empty());
    assert_eq!(w.frame_count(), 1);
    assert_eq!(w.total_bytes(), 4);
    assert_eq!(w.total_bits(), 94);
    assert_eq!(w.per_id().len(), 1);
    assert_eq!(w.per_id()[0].id, 0x123);
    assert_eq!(w.per_id()[0].frame_count, 1);
}

#[test]
fn load_window_extended_frame_more_bits() {
    let mut w = CanLoadWindow::new(1_000_000);
    w.push_frame(&ext_frame(8, 1_000_000));
    assert_eq!(w.total_bits(), 157);
    assert!(w.per_id()[0].extended);
}

#[test]
fn load_window_frame_bits_formula() {
    assert_eq!(CanLoadWindow::frame_bits(&load_frame(0x100, 0, 0)), 56);
    assert_eq!(CanLoadWindow::frame_bits(&load_frame(0x100, 8, 0)), 133);
    assert_eq!(CanLoadWindow::frame_bits(&ext_frame(0, 0)), 80);
    assert_eq!(CanLoadWindow::frame_bits(&ext_frame(8, 0)), 157);
}

#[test]
fn load_window_eviction() {
    let mut w = CanLoadWindow::new(100_000);
    w.push_frame(&load_frame(0x100, 4, 100_000));
    w.push_frame(&load_frame(0x100, 4, 200_000));
    w.push_frame(&load_frame(0x100, 4, 300_000));
    assert_eq!(w.frame_count(), 2);
    assert_eq!(w.total_bytes(), 8);
    assert_eq!(w.per_id()[0].frame_count, 2);
}

#[test]
fn load_window_eviction_reports_ids_that_left() {
    let mut w = CanLoadWindow::new(100_000);
    w.push_frame(&load_frame(0x100, 1, 100_000));
    w.push_frame(&load_frame(0x200, 2, 150_000));
    let left = w.push_frame(&load_frame(0x300, 3, 240_000));
    assert_eq!(left, vec![(0x100, false)]);
    assert_eq!(w.frame_count(), 2);
    assert_eq!(w.per_id().len(), 2);
    assert!(w.per_id().iter().all(|e| e.id != 0x100));
}

#[test]
fn load_window_per_id_aggregation() {
    let mut w = CanLoadWindow::new(1_000_000);
    w.push_frame(&load_frame(0x100, 4, 1_000_000));
    w.push_frame(&load_frame(0x100, 4, 1_100_000));
    w.push_frame(&load_frame(0x200, 8, 1_200_000));
    assert_eq!(w.per_id().len(), 2);
    let id_100 = w.per_id().iter().find(|s| s.id == 0x100).unwrap();
    assert_eq!(id_100.frame_count, 2);
    assert_eq!(id_100.total_bytes, 8);
    assert_eq!(id_100.total_bits, 188);
    let id_200 = w.per_id().iter().find(|s| s.id == 0x200).unwrap();
    assert_eq!(id_200.frame_count, 1);
    assert_eq!(id_200.total_bytes, 8);
    assert_eq!(w.total_bits(), 188 + 133);
}

#[test]
fn load_window_same_id_other_format_is_separate() {
    let mut w = CanLoadWindow::new(1_000_000);
    w.push(LoadSample { timestamp_us: 10, bits: 50, id: 7, extended: false, dlc: 1 });
    w.push(LoadSample { timestamp_us: 20, bits: 70, id: 7, extended: true, dlc: 2 });
    assert_eq!(w.per_id().len(), 2);
}

#[test]
fn load_window_clear() {
    let mut w = CanLoadWindow::new(1_000_000);
    w.push_frame(&load_frame(0x100, 4, 1_000_000));
    w.clear();
    assert_eq!(w.frame_count(), 0);
    assert_eq!(w.total_bits(), 0);
    assert!(w.per_id().is_empty());
    assert_eq!(w.window_us(), 1_000_000);
}

#[test]
fn load_window_set_window_us() {
    let mut w = CanLoadWindow::new(1_000_000);
    w.push_frame(&load_frame(0x100, 4, 1_000_000));
    w.push_frame(&load_frame(0x100, 4, 1_500_000));
    let left = w.set_window_us(200_000);
    assert!(left.is_empty());
    assert_eq!(w.frame_count(), 1);
    assert_eq!(w.window_us(), 200_000);
}

#[test]
fn load_window_evict_expired_at_later_time() {
    let mut w = CanLoadWindow::new(100_000);
    w.push_frame(&load_frame(0x100, 4, 100_000));
    w.push_frame(&load_frame(0x200, 4, 150_000));
    let left = w.evict_expired(1_000_000);
    assert_eq!(left.len(), 2);
    assert_eq!(w.frame_count(), 0);
    assert_eq!(w.total_bits(), 0);
    assert_eq!(w.total_bytes(), 0);
    assert!(w.per_id().is_empty());
}

#[test]
fn load_window_per_id_by_bits_descending() {
    let mut w = CanLoadWindow::new(1_000_000);
    w.push_frame(&load_frame(0x100, 1, 10));
    w.push_frame(&load_frame(0x200, 8, 20));
    w.push_frame(&load_frame(0x300, 4, 30));
    w.push_frame(&load_frame(0x100, 1, 40));
    let sorted = w.per_id_by_bits();
    let ids: Vec<u32> = sorted.iter().map(|e| e.id).collect();
    // 0x200: 133 bits, 0x300: 94 bits, 0x100: 2 * 66 = 132 bits
    assert_eq!(ids, vec![0x200, 0x100, 0x300]);
    assert_eq!(sorted[1].total_bits, 132);
}
