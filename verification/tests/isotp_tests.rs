use vofa_next::can::{CanDirection, CanFrame};
use vofa_next::isotp::{
    consecutive_frame, first_frame, flow_control_cts, plan_block, plan_request, single_frame, st_min_micros,
    FrameAction, IsoTpError, IsoTpRequests, Receiver,
};

fn rx(id: u32, data: Vec<u8>) -> CanFrame {
    CanFrame { timestamp: 0, id, extended: false, rtr: false, dlc: data.len() as u8, data, direction: CanDirection::Rx }
}

#[test]
fn single_frame_layout() {
    assert_eq!(single_frame(&[0x22, 0xF1, 0x90], None), vec![0x03, 0x22, 0xF1, 0x90, 0, 0, 0, 0]);
    assert_eq!(single_frame(&[0x3E], Some(0xCC)), vec![0x01, 0x3E, 0xCC, 0xCC, 0xCC, 0xCC, 0xCC, 0xCC]);
    assert_eq!(single_frame(&[1, 2, 3, 4, 5, 6, 7], Some(0xAA)), vec![7, 1, 2, 3, 4, 5, 6, 7]);
}

#[test]
fn consecutive_frame_layout() {
    let data: Vec<u8> = (0u8..20).collect();
    assert_eq!(consecutive_frame(&data, 6, 1), vec![0x21, 6, 7, 8, 9, 10, 11, 12]);
    assert_eq!(consecutive_frame(&data, 13, 2), vec![0x22, 13, 14, 15, 16, 17, 18, 19]);
    assert_eq!(consecutive_frame(&data, 18, 0x1F), vec![0x2F, 18, 19, 0, 0, 0, 0, 0]);
}

#[test]
fn flow_control_frame_layout() {
    assert_eq!(flow_control_cts(), vec![0x30, 0, 0, 0, 0, 0, 0, 0]);
}

#[test]
fn st_min_decoding() {
    assert_eq!(st_min_micros(0), 0);
    assert_eq!(st_min_micros(20), 20_000);
    assert_eq!(st_min_micros(127), 127_000);
    assert_eq!(st_min_micros(128), 0);
    assert_eq!(st_min_micros(241), 100);
    assert_eq!(st_min_micros(249), 900);
    assert_eq!(st_min_micros(250), 0);
}

#[test]
fn plan_request_limits() {
    assert_eq!(plan_request(&[0x10, 0x03], None), Ok(vec![0x02, 0x10, 0x03, 0, 0, 0, 0, 0]));
    let big = vec![0u8; 0x1000];
    assert_eq!(plan_request(&big, None), Err(IsoTpError::TooLong { len: 0x1000 }));
}

#[test]
fn plan_request_long_payload_opens_with_first_frame() {
    let data: Vec<u8> = (1..=20).collect();
    assert_eq!(plan_request(&data, Some(0xCC)), Ok(vec![0x10, 20, 1, 2, 3, 4, 5, 6]));
    let max = vec![0xABu8; 0xFFF];
    assert_eq!(plan_request(&max, None), Ok(vec![0x1F, 0xFF, 0xAB, 0xAB, 0xAB, 0xAB, 0xAB, 0xAB]));
    let eight: Vec<u8> = (0..8).collect();
    assert_eq!(first_frame(&eight), vec![0x10, 8, 0, 1, 2, 3, 4, 5]);
}

#[test]
fn receiver_reassembles_and_checks_sequence() {
    let mut r = Receiver::new(10);
    r.buffer = vec![1, 2, 3, 4, 5, 6];
    assert_eq!(r.push_cf(2, &[7]), Err(IsoTpError::SequenceMismatch { expected: 1, received: 2 }));
    assert_eq!(r.push_cf(1, &[7, 8, 9, 10, 0, 0, 0]), Ok(Some(vec![1, 2, 3, 4, 5, 6, 7, 8, 9, 10])));
    assert_eq!(r.next_sn, 2);
}

#[test]
fn single_frame_response_completes_request() {
    let mut t = IsoTpRequests::new();
    t.request_sent(0x7E0, 0x7E8, vec![0x22, 0xF1, 0x90]);
    assert!(t.is_pending(0x7E8));
    let f = rx(0x7E8, vec![0x03, 0x62, 0xF1, 0x90, 0xAA, 0xAA, 0xAA, 0xAA]);
    assert!(t.frame_in_bounds(&f));
    match t.handle_frame(&f) {
        FrameAction::Complete { rx_id, result } => {
            assert_eq!(rx_id, 0x7E8);
            assert_eq!(result, Ok(vec![0x62, 0xF1, 0x90]));
        }
        other => panic!("unexpected action {other:?}"),
    }
    assert!(!t.is_pending(0x7E8));
    assert_eq!(t.len(), 0);
}

#[test]
fn frames_for_other_ids_or_sent_frames_are_ignored() {
    let mut t = IsoTpRequests::new();
    t.request_sent(0x7E0, 0x7E8, vec![0x3E, 0x00]);
    assert!(matches!(t.handle_frame(&rx(0x123, vec![0x02, 0x7E, 0x00])), FrameAction::NoAction));
    let mut sent = rx(0x7E8, vec![0x02, 0x7E, 0x00]);
    sent.direction = CanDirection::Tx;
    assert!(matches!(t.handle_frame(&sent), FrameAction::NoAction));
    assert!(matches!(t.handle_frame(&rx(0x7E8, vec![])), FrameAction::NoAction));
    assert!(matches!(t.handle_frame(&rx(0x7E8, vec![0x00, 1, 2])), FrameAction::NoAction));
    assert!(t.is_pending(0x7E8));
}

#[test]
fn multi_frame_response_is_reassembled() {
    let mut t = IsoTpRequests::new();
    t.request_sent(0x7E0, 0x7E8, vec![0x22, 0xF1, 0x90]);
    let msg: Vec<u8> = (0u8..20).collect();
    let ff = rx(0x7E8, vec![0x10, 20, 0, 1, 2, 3, 4, 5]);
    match t.handle_frame(&ff) {
        FrameAction::SendFlowControl { rx_id, tx_id, frame, completed } => {
            assert_eq!(rx_id, 0x7E8);
            assert_eq!(tx_id, 0x7E0);
            assert_eq!(frame, vec![0x30, 0, 0, 0, 0, 0, 0, 0]);
            assert!(completed.is_none());
        }
        other => panic!("unexpected action {other:?}"),
    }
    let cf1 = rx(0x7E8, consecutive_frame(&msg, 6, 1));
    assert!(matches!(t.handle_frame(&cf1), FrameAction::NoAction));
    let cf2 = rx(0x7E8, consecutive_frame(&msg, 13, 2));
    match t.handle_frame(&cf2) {
        FrameAction::Complete { rx_id, result } => {
            assert_eq!(rx_id, 0x7E8);
            assert_eq!(result, Ok(msg.clone()));
        }
        other => panic!("unexpected action {other:?}"),
    }
    assert!(!t.is_pending(0x7E8));
}

#[test]
fn short_first_frame_completes_at_once() {
    let mut t = IsoTpRequests::new();
    t.request_sent(0x7E0, 0x7E8, vec![0x01]);
    match t.handle_frame(&rx(0x7E8, vec![0x10, 3, 9, 8, 7, 0, 0, 0])) {
        FrameAction::SendFlowControl { completed, .. } => assert_eq!(completed, Some(vec![9, 8, 7])),
        other => panic!("unexpected action {other:?}"),
    }
    assert!(!t.is_pending(0x7E8));
}

#[test]
fn wrong_sequence_number_fails_request() {
    let mut t = IsoTpRequests::new();
    t.request_sent(0x7E0, 0x7E8, vec![0x01]);
    let _ = t.handle_frame(&rx(0x7E8, vec![0x10, 20, 0, 1, 2, 3, 4, 5]));
    match t.handle_frame(&rx(0x7E8, vec![0x22, 6, 7, 8, 9, 10, 11, 12])) {
        FrameAction::Complete { result, .. } => {
            assert_eq!(result, Err(IsoTpError::SequenceMismatch { expected: 1, received: 2 }))
        }
        other => panic!("unexpected action {other:?}"),
    }
    assert!(!t.is_pending(0x7E8));
}

#[test]
fn flow_control_drives_consecutive_frames() {
    let mut t = IsoTpRequests::new();
    let long: Vec<u8> = (0u8..30).collect();
    t.request_sent(0x7E0, 0x7E8, long.clone());
    assert!(matches!(t.handle_frame(&rx(0x7E8, vec![0x30, 0x01, 0, 0])), FrameAction::NoAction));
    match t.handle_frame(&rx(0x7E8, vec![0x30, 0x00, 2, 20])) {
        FrameAction::SendBlock { rx_id, tx_id, frames, st_min_us, finished } => {
            assert_eq!(rx_id, 0x7E8);
            assert_eq!(tx_id, 0x7E0);
            assert_eq!(frames.len(), 2);
            assert_eq!(frames[0], vec![0x21, 6, 7, 8, 9, 10, 11, 12]);
            assert_eq!(frames[1], vec![0x22, 13, 14, 15, 16, 17, 18, 19]);
            assert_eq!(st_min_us, 20_000);
            assert!(!finished);
        }
        other => panic!("unexpected action {other:?}"),
    }
    match t.handle_frame(&rx(0x7E8, vec![0x30, 0x00, 0, 0])) {
        FrameAction::SendBlock { frames, finished, .. } => {
            assert_eq!(frames.len(), 2);
            assert_eq!(frames[0], vec![0x23, 20, 21, 22, 23, 24, 25, 26]);
            assert_eq!(frames[1], vec![0x24, 27, 28, 29, 0, 0, 0, 0]);
            assert!(finished);
        }
        other => panic!("unexpected action {other:?}"),
    }
    assert!(t.is_pending(0x7E8));
    match t.handle_frame(&rx(0x7E8, vec![0x02, 0x62, 0x01])) {
        FrameAction::Complete { result, .. } => assert_eq!(result, Ok(vec![0x62, 0x01])),
        other => panic!("unexpected action {other:?}"),
    }
}

#[test]
fn flow_control_overflow_fails_request() {
    let mut t = IsoTpRequests::new();
    t.request_sent(0x7E0, 0x7E8, (0u8..10).collect());
    match t.handle_frame(&rx(0x7E8, vec![0x30, 0x02])) {
        FrameAction::Complete { result, .. } => assert_eq!(result, Err(IsoTpError::FlowOverflow)),
        other => panic!("unexpected action {other:?}"),
    }
    assert!(!t.is_pending(0x7E8));
}

#[test]
fn failed_send_drops_request() {
    let mut t = IsoTpRequests::new();
    t.request_sent(0x7E0, 0x7E8, vec![1]);
    t.fail(0x7E8);
    assert!(!t.is_pending(0x7E8));
}

#[test]
fn out_of_bounds_frames_are_detected() {
    let mut t = IsoTpRequests::new();
    t.request_sent(0x7E0, 0x7E8, vec![1]);
    assert!(!t.frame_in_bounds(&rx(0x7E8, vec![0x05, 1, 2])));
    assert!(!t.frame_in_bounds(&rx(0x7E8, vec![0x10])));
    assert!(!t.frame_in_bounds(&rx(0x7E8, vec![0x10, 20, 1, 2])));
    assert!(t.frame_in_bounds(&rx(0x7E9, vec![0x10, 20, 1, 2])));
    assert!(t.frame_in_bounds(&rx(0x7E8, vec![0x21])));
}

#[test]
fn block_planning_without_limit_sends_everything() {
    let data: Vec<u8> = (0u8..16).collect();
    let (frames, off, sn, finished) = plan_block(&data, 6, 15, 0);
    assert_eq!(frames.len(), 2);
    assert_eq!(frames[0][0], 0x2F);
    assert_eq!(frames[1][0], 0x20);
    assert_eq!(off, 16);
    assert_eq!(sn, 1);
    assert!(finished);
}

#[test]
fn segmented_message_round_trip_with_sequence_wrap() {
    let msg: Vec<u8> = (0..300u32).map(|i| (i * 7 % 256) as u8).collect();
    let mut t = IsoTpRequests::new();
    t.request_sent(0x7E0, 0x7E8, vec![0x22, 0xF1, 0x90]);
    let mut ff = vec![0x10 | (msg.len() >> 8) as u8, (msg.len() & 0xFF) as u8];
    ff.extend_from_slice(&msg[..6]);
    assert!(matches!(t.handle_frame(&rx(0x7E8, ff)), FrameAction::SendFlowControl { .. }));
    let (frames, off, _sn, finished) = plan_block(&msg, 6, 1, 0);
    assert_eq!(off, msg.len());
    assert!(finished);
    assert_eq!(frames.len(), 42);
    let last = frames.len() - 1;
    for (i, f) in frames.into_iter().enumerate() {
        match t.handle_frame(&rx(0x7E8, f)) {
            FrameAction::NoAction => assert!(i < last),
            FrameAction::Complete { rx_id, result } => {
                assert_eq!(i, last);
                assert_eq!(rx_id, 0x7E8);
                assert_eq!(result, Ok(msg.clone()));
            }
            other => panic!("unexpected action {other:?}"),
        }
    }
    assert!(!t.is_pending(0x7E8));
}
