use vofa_next::raw::{RawDataCollector, RawDataDirection};
use vofa_next::raw_filter::{DirectionFilter, SearchPattern};

#[test]
fn lib_test_raw_collector_push_and_read() {
    let mut col = RawDataCollector::with_capacity(1024);
    col.push_chunk(100, RawDataDirection::Rx, b"hello");
    col.push_chunk(200, RawDataDirection::Rx, b"world");
    assert_eq!(col.total_bytes(), 10);
    assert_eq!(col.chunk_count(), 2);

    let (chunks, next) = col.read_from(0, 10);
    assert_eq!(chunks.len(), 2);
    assert_eq!(chunks[0].2, b"hello");
    assert_eq!(chunks[1].2, b"world");
    assert_eq!(next, 2);

    let (chunks2, next2) = col.read_from(0, 10);
    assert_eq!(chunks2.len(), 2);
    assert_eq!(next2, 2);
}

#[test]
fn lib_test_raw_collector_drops_oldest() {
    let mut col = RawDataCollector::with_capacity(10);
    col.push_chunk(1, RawDataDirection::Rx, b"0123456789");
    assert_eq!(col.dropped_bytes(), 0);
    col.push_chunk(2, RawDataDirection::Rx, b"xx");
    assert_eq!(col.dropped_bytes(), 10);
    assert_eq!(col.base_index(), 1);

    let (chunks, next) = col.read_from(0, 1024);
    assert_eq!(chunks.len(), 1);
    assert_eq!(chunks[0].2, b"xx");
    assert_eq!(next, 2);
}

#[test]
fn lib_test_raw_collector_read_max_bytes() {
    let mut col = RawDataCollector::with_capacity(1024);
    col.push_chunk(1, RawDataDirection::Rx, b"12345");
    col.push_chunk(2, RawDataDirection::Rx, b"67890");
    col.push_chunk(3, RawDataDirection::Rx, b"abcde");

    let (chunks, next) = col.read_from(0, 12);
    assert_eq!(chunks.len(), 2);
    assert_eq!(next, 2);
}

#[test]
fn lib_test_raw_collector_clear() {
    let mut col = RawDataCollector::with_capacity(1024);
    col.push_chunk(1, RawDataDirection::Rx, b"data");
    col.clear();
    assert_eq!(col.total_bytes(), 0);
    assert_eq!(col.dropped_bytes(), 0);
    assert_eq!(col.base_index(), 0);
    let (chunks, _) = col.read_from(0, 1024);
    assert!(chunks.is_empty());
}

#[test]
fn lib_test_raw_collector_read_filtered() {
    let mut col = RawDataCollector::with_capacity(1024);
    col.push_chunk(1, RawDataDirection::Rx, b"hello");
    col.push_chunk(2, RawDataDirection::Tx, b"world");
    col.push_chunk(3, RawDataDirection::Rx, b"again");

    let (chunks, next) = col.read_filtered_from(0, 1024, DirectionFilter::Rx, None);
    assert_eq!(chunks.len(), 2);
    assert_eq!(chunks[0].2, b"hello");
    assert_eq!(chunks[1].2, b"again");
    assert_eq!(next, 3);

    let (chunks, _) = col.read_filtered_from(0, 1024, DirectionFilter::Tx, None);
    assert_eq!(chunks.len(), 1);
    assert_eq!(chunks[0].2, b"world");

    let pat = SearchPattern::parse("ell").unwrap();
    let (chunks, _) = col.read_filtered_from(0, 1024, DirectionFilter::All, Some(&pat));
    assert_eq!(chunks.len(), 1);
    assert_eq!(chunks[0].2, b"hello");

    let pat = SearchPattern::parse("77 6f").unwrap();
    let (chunks, _) = col.read_filtered_from(0, 1024, DirectionFilter::All, Some(&pat));
    assert_eq!(chunks.len(), 1);
    assert_eq!(chunks[0].2, b"world");
}
