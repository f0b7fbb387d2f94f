use vofa_next::raw::{RawDataCollector, RawDataDirection, RawDrain};
use vofa_next::raw_filter::{DirectionFilter, SearchPattern};

#[test]
fn direction_filter_matches() {
    assert!(DirectionFilter::All.matches(RawDataDirection::Rx));
    assert!(DirectionFilter::All.matches(RawDataDirection::Tx));
    assert!(DirectionFilter::Rx.matches(RawDataDirection::Rx));
    assert!(!DirectionFilter::Rx.matches(RawDataDirection::Tx));
    assert!(DirectionFilter::Tx.matches(RawDataDirection::Tx));
    assert!(!DirectionFilter::Tx.matches(RawDataDirection::Rx));
    assert_eq!(DirectionFilter::default(), DirectionFilter::All);
    assert_eq!(RawDataDirection::default(), RawDataDirection::Rx);
}

#[test]
fn search_pattern_blank_is_none() {
    assert!(SearchPattern::parse("").is_none());
    assert!(SearchPattern::parse(" \t\n ").is_none());
}

#[test]
fn search_pattern_hex_forms() {
    assert_eq!(SearchPattern::parse("31 32").unwrap().as_bytes(), &[0x31, 0x32]);
    assert_eq!(SearchPattern::parse("3132").unwrap().as_bytes(), &[0x31, 0x32]);
    assert_eq!(SearchPattern::parse(" 31 2 ").unwrap().as_bytes(), &[0x31, 0x02]);
    assert_eq!(SearchPattern::parse("abc").unwrap().as_bytes(), &[0xAB, 0x0C]);
}

#[test]
fn search_pattern_text_form() {
    let p = SearchPattern::parse("  hello world ").unwrap();
    assert_eq!(p.as_bytes(), b"hello world");
    assert_eq!(p.len(), 11);
    assert!(!p.is_empty());
    let p = SearchPattern::parse("温度").unwrap();
    assert_eq!(p.as_bytes(), "温度".as_bytes());
}

#[test]
fn search_pattern_matches() {
    let p = SearchPattern::parse("ell").unwrap();
    assert!(p.matches(b"hello"));
    assert!(!p.matches(b"help"));
    let one = SearchPattern::parse("x").unwrap();
    assert!(one.matches(b"abx"));
    assert!(!one.matches(b""));
}

#[test]
fn filtered_read_finds_pattern_across_chunks() {
    let mut col = RawDataCollector::with_capacity(1024);
    col.push_chunk(1, RawDataDirection::Rx, b"abx");
    col.push_chunk(2, RawDataDirection::Tx, b"zzz");
    col.push_chunk(3, RawDataDirection::Rx, b"yef");
    let pat = SearchPattern::parse("xy").unwrap();
    let (chunks, next) = col.read_filtered_from(0, 1024, DirectionFilter::Rx, Some(&pat));
    assert_eq!(chunks.len(), 1);
    assert_eq!(chunks[0].0, 3);
    assert_eq!(chunks[0].2, b"yef");
    assert_eq!(next, 3);
    let (chunks, _) = col.read_filtered_from(0, 1024, DirectionFilter::All, Some(&pat));
    assert!(chunks.is_empty());
}

#[test]
fn filtered_read_budget_counts_scanned_chunks() {
    let mut col = RawDataCollector::with_capacity(1024);
    col.push_chunk(1, RawDataDirection::Tx, b"0123456789");
    col.push_chunk(2, RawDataDirection::Rx, b"ab");
    col.push_chunk(3, RawDataDirection::Rx, b"cd");
    let (chunks, next) = col.read_filtered_from(0, 12, DirectionFilter::Rx, None);
    assert_eq!(chunks.len(), 1);
    assert_eq!(chunks[0].2, b"ab");
    assert_eq!(next, 2);
}

#[test]
fn collector_counts_every_byte() {
    let mut col = RawDataCollector::with_capacity(8);
    col.push_chunk(1, RawDataDirection::Rx, b"abcd");
    col.push_chunk(2, RawDataDirection::Tx, b"efgh");
    col.push_chunk(3, RawDataDirection::Rx, b"ij");
    assert_eq!(col.total_bytes(), 10);
    assert_eq!(col.stored_bytes(), 6);
    assert_eq!(col.dropped_bytes(), 4);
    assert_eq!(col.total_bytes(), col.dropped_bytes() + col.stored_bytes() as u64);
    assert_eq!(col.base_index(), 1);
    assert_eq!(col.chunk_count(), 2);
}

#[test]
fn collector_oversized_chunk_is_dropped_itself() {
    let mut col = RawDataCollector::with_capacity(4);
    col.push_chunk(1, RawDataDirection::Rx, b"0123456789");
    assert_eq!(col.chunk_count(), 0);
    assert_eq!(col.stored_bytes(), 0);
    assert_eq!(col.dropped_bytes(), 10);
    assert_eq!(col.base_index(), 1);
    let (chunks, next) = col.read_from(0, 100);
    assert!(chunks.is_empty());
    assert_eq!(next, 1);
}

#[test]
fn collector_indices_stay_with_their_chunks() {
    let mut col = RawDataCollector::with_capacity(6);
    col.push_chunk(10, RawDataDirection::Rx, b"aa");
    col.push_chunk(11, RawDataDirection::Rx, b"bb");
    col.push_chunk(12, RawDataDirection::Rx, b"cc");
    col.push_chunk(13, RawDataDirection::Rx, b"dd");
    let (chunks, next) = col.read_from(2, 100);
    assert_eq!(chunks[0].0, 12);
    assert_eq!(chunks[0].2, b"cc");
    assert_eq!(next, 4);
    let (chunks, next) = col.read_from(0, 100);
    assert_eq!(chunks[0].0, 11);
    assert_eq!(next, 4);
    let (chunks, next) = col.read_from(9, 100);
    assert!(chunks.is_empty());
    assert_eq!(next, 9);
}

#[test]
fn collector_read_never_exceeds_max_bytes() {
    let mut col = RawDataCollector::with_capacity(100);
    col.push_chunk(1, RawDataDirection::Rx, b"0123456789");
    col.push_chunk(2, RawDataDirection::Rx, b"ab");
    let (chunks, next) = col.read_from(0, 3);
    assert!(chunks.is_empty());
    assert_eq!(next, 0);
    let (chunks, next) = col.read_filtered_from(0, 3, DirectionFilter::All, None);
    assert!(chunks.is_empty());
    assert_eq!(next, 0);
    let (chunks, next) = col.read_from(1, 3);
    assert_eq!(chunks.len(), 1);
    assert_eq!(next, 2);
}

#[test]
fn collector_set_capacity_and_remaining() {
    let mut col = RawDataCollector::new();
    col.push_chunk(1, RawDataDirection::Rx, b"abc");
    col.push_chunk(2, RawDataDirection::Rx, b"defg");
    col.push_chunk(3, RawDataDirection::Rx, b"h");
    assert_eq!(col.remaining_bytes_from(0), 8);
    assert_eq!(col.remaining_bytes_from(1), 5);
    assert_eq!(col.remaining_bytes_from(3), 0);
    col.set_capacity(5);
    assert_eq!(col.chunk_count(), 2);
    assert_eq!(col.base_index(), 1);
    assert_eq!(col.dropped_bytes(), 3);
    assert_eq!(col.remaining_bytes_from(0), 5);
    col.set_capacity(0);
    assert_eq!(col.chunk_count(), 1);
    assert_eq!(col.stored_bytes(), 1);
}

#[test]
fn collector_default_matches_new() {
    let a = RawDataCollector::default();
    assert_eq!(a.chunk_count(), 0);
    assert_eq!(RawDataCollector::DEFAULT_CAPACITY, 1_048_576);
}

#[test]
fn drain_encodes_base64() {
    let drain = RawDrain {
        chunks: vec![
            (7, RawDataDirection::Tx, b"hello".to_vec()),
            (8, RawDataDirection::Rx, vec![]),
            (9, RawDataDirection::Rx, vec![0xFF, 0x00]),
        ],
        total_bytes: 42,
        dropped_bytes: 5,
    };
    let batch = drain.into_batch();
    assert_eq!(batch.seq, 0);
    assert_eq!(batch.total_bytes, 42);
    assert_eq!(batch.dropped_bytes, 5);
    assert_eq!(batch.chunks.len(), 3);
    assert_eq!(batch.chunks[0].timestamp_us, 7);
    assert_eq!(batch.chunks[0].direction, RawDataDirection::Tx);
    assert_eq!(batch.chunks[0].bytes_b64, "aGVsbG8=");
    assert_eq!(batch.chunks[1].bytes_b64, "");
    assert_eq!(batch.chunks[2].bytes_b64, "/wA=");
}

#[test]
fn collector_base_plus_count_counts_pushes_since_clear() {
    let mut col = RawDataCollector::with_capacity(5);
    for i in 0..7u64 {
        col.push_chunk(i, RawDataDirection::Rx, b"xyz");
        assert_eq!(col.base_index() + col.chunk_count(), i as usize + 1);
        assert_eq!(col.total_bytes(), 3 * (i + 1));
        assert_eq!(col.total_bytes(), col.stored_bytes() as u64 + col.dropped_bytes());
        assert!(col.stored_bytes() <= 5);
    }
    let dropped = col.dropped_bytes();
    col.set_capacity(3);
    assert_eq!(col.base_index() + col.chunk_count(), 7);
    assert!(col.dropped_bytes() >= dropped);
    col.clear();
    assert_eq!((col.base_index(), col.chunk_count(), col.total_bytes(), col.dropped_bytes()), (0, 0, 0, 0));
    col.push_chunk(9, RawDataDirection::Tx, b"ab");
    assert_eq!(col.base_index() + col.chunk_count(), 1);
    assert_eq!(col.total_bytes(), 2);
}
