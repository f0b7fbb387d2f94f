use vofa_next::can::can_core;
use vofa_next::can::{CanBitrate, CanBuffer, CanDirection, CanFrame, CanFrameFilter, CanFrameTestData};

fn frame(id: u32, data: Vec<u8>, dir: CanDirection) -> CanFrame {
    CanFrame { timestamp: 0, id, extended: false, rtr: false, dlc: data.len() as u8, data, direction: dir }
}

#[test]
fn bitrate_values_and_commands() {
    assert_eq!(CanBitrate::Bps100k.bps(), 100_000);
    assert_eq!(CanBitrate::Bps1m.bps(), 1_000_000);
    assert_eq!(CanBitrate::Bps100k.slcan_cmd(), "S3");
    assert_eq!(CanBitrate::Bps125k.slcan_cmd(), "S4");
    assert_eq!(CanBitrate::Bps250k.slcan_cmd(), "S5");
    assert_eq!(CanBitrate::Bps500k.slcan_cmd(), "S6");
    assert_eq!(CanBitrate::Bps1m.slcan_cmd(), "S8");
}

#[test]
fn frame_filter_conditions() {
    let f = frame(0x123, vec![1, 2, 3, 4], CanDirection::Rx);
    assert!(CanFrameFilter::default().matches(&f));
    assert!(CanFrameFilter::default().is_empty());
    let by_mask = CanFrameFilter { id: Some(0x120), id_mask: Some(0x7F0), ..Default::default() };
    assert!(!by_mask.matches(&f));
    let by_mask_only = CanFrameFilter { id_mask: Some(0x00F), ..Default::default() };
    assert!(!by_mask_only.matches(&f));
    let by_range = CanFrameFilter { id_min: Some(0x100), id_max: Some(0x1FF), ..Default::default() };
    assert!(by_range.matches(&f));
    assert!(!by_range.is_empty());
    let by_dir = CanFrameFilter { direction: Some(CanDirection::Tx), ..Default::default() };
    assert!(!by_dir.matches(&f));
    let by_data = CanFrameFilter { data_pattern: Some(vec![2, 3]), ..Default::default() };
    assert!(by_data.matches(&f));
    let by_data = CanFrameFilter { data_pattern: Some(vec![3, 2]), ..Default::default() };
    assert!(!by_data.matches(&f));
}

#[test]
fn core_filters() {
    let f = frame(0x7E8, vec![], CanDirection::Rx);
    let acceptance = can_core::CanFilter { enabled: true, id_mask_std: 0x700, id_mask_ext: 0 };
    assert!(acceptance.matches(&f));
    let lists = can_core::CanFrameFilter {
        rx_only: true,
        tx_only: false,
        id_whitelist: vec![0x7E8, 0x7E9],
        id_blacklist: vec![0x7E9],
    };
    assert!(lists.matches(&f));
    assert!(!lists.matches(&frame(0x7E9, vec![], CanDirection::Rx)));
    assert!(!lists.matches(&frame(0x7E8, vec![], CanDirection::Tx)));
    assert!(!lists.matches(&frame(0x100, vec![], CanDirection::Rx)));
}

#[test]
fn generators() {
    let s = CanFrameTestData::standard_frames(0x100, 3);
    assert_eq!(s.len(), 3);
    assert_eq!(s[2].id, 0x102);
    assert_eq!(s[2].data, vec![2, 0, 0, 0, 0, 0, 0, 0]);
    assert_eq!(s[2].timestamp, 2000);
    assert!(!s[0].extended);
    let e = CanFrameTestData::extended_frames(0x1800_0000, 2);
    assert!(e[1].extended);
    assert_eq!(e[1].id, 0x1800_0001);
    let r = CanFrameTestData::repeating(0x55, vec![9, 8, 7, 6, 5, 4, 3, 2, 1], true, 2);
    assert_eq!(r[1].data, vec![9, 8, 7, 6, 5, 4, 3, 2]);
    assert_eq!(r[1].dlc, 8);
    let c = CanFrameTestData::cycling(&[1, 2, 3], 2, 5);
    assert_eq!(c.iter().map(|f| f.id).collect::<Vec<_>>(), vec![1, 2, 3, 1, 2]);
    assert_eq!(c[4].data, vec![4, 0]);
    let l = CanFrameTestData::load_frame(0x10, 12, 77);
    assert_eq!(l.dlc, 8);
    assert_eq!(l.data, vec![0u8; 8]);
    assert_eq!(l.timestamp, 77);
    let f = CanFrameTestData::load_frame(0x100, 12, 5);
    assert_eq!((f.dlc, f.data.clone(), f.id, f.timestamp), (8, vec![0u8; 8], 0x100, 5));
    assert!(!f.extended && !f.rtr && f.direction == CanDirection::Rx);
    assert_eq!(CanFrameTestData::load_frame(1, 3, 0).data, vec![0u8; 3]);
    let w = CanFrameTestData::with_data(0x20, vec![1, 2, 3], false);
    assert_eq!(w.dlc, 3);
    assert_eq!(w.data, vec![1, 2, 3]);
}

#[test]
fn can_buffer_cursor_reads_and_shrink() {
    let mut b = CanBuffer::new(2);
    for f in CanFrameTestData::standard_frames(0x100, 4) {
        b.push(f);
    }
    assert_eq!(b.version(), 4);
    let (frames, next, dropped) = b.drain_from(1, 10);
    assert_eq!(frames.len(), 2);
    assert_eq!(frames[0].id, 0x102);
    assert_eq!(next, 4);
    assert_eq!(dropped, 1);
    b.set_max_size(0);
    assert_eq!(b.len(), 1);
    assert_eq!(b.get_recent(1)[0].id, 0x103);
}
