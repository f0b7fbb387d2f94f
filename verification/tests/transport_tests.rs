use vofa_next::frame::{ConnectionState, TransportStats};
use vofa_next::transport::{TransportHandle, TransportManager};

fn serial_handle() -> TransportHandle {
    TransportHandle { state: ConnectionState::Connected, test_data_running: None, stats: TransportStats::default() }
}

fn test_data_handle(running: bool) -> TransportHandle {
    TransportHandle { state: ConnectionState::Connected, test_data_running: Some(running), stats: TransportStats::default() }
}

#[test]
fn transport_register_and_close() {
    let mut m = TransportManager::new();
    assert!(!m.is_open("serial-1"));
    m.register("serial-1", serial_handle());
    m.register("tcp-1", serial_handle());
    assert!(m.is_open("serial-1"));
    assert!(m.is_open("tcp-1"));
    let mut ids = m.list_open();
    ids.sort();
    assert_eq!(ids, vec!["serial-1".to_string(), "tcp-1".to_string()]);
    m.close("serial-1");
    assert!(!m.is_open("serial-1"));
    assert!(m.is_open("tcp-1"));
    m.close("missing");
    assert_eq!(m.list_open(), vec!["tcp-1".to_string()]);
    m.close_all();
    assert!(m.list_open().is_empty());
}

#[test]
fn transport_register_replaces_same_id() {
    let mut m = TransportManager::new();
    m.register("n1", serial_handle());
    m.record_rx("n1", 10, 1);
    m.register("n1", test_data_handle(true));
    assert_eq!(m.list_open().len(), 1);
    let h = m.handle("n1").unwrap();
    assert_eq!(h.stats.rx_bytes, 0);
    assert_eq!(h.test_data_running, Some(true));
}

#[test]
fn transport_record_rx_accumulates() {
    let mut m = TransportManager::new();
    m.register("n1", serial_handle());
    m.register("n2", serial_handle());
    m.record_rx("n1", 100, 3);
    m.record_rx("n1", 28, 1);
    m.record_rx("unknown", 5, 5);
    let h1 = m.handle("n1").unwrap();
    assert_eq!(h1.stats.rx_bytes, 128);
    assert_eq!(h1.stats.rx_frames, 4);
    assert_eq!(h1.stats.tx_bytes, 0);
    let h2 = m.handle("n2").unwrap();
    assert_eq!(h2.stats.rx_bytes, 0);
    assert!(m.handle("unknown").is_none());
}

#[test]
fn transport_record_rx_wraps() {
    let mut m = TransportManager::new();
    let mut h = serial_handle();
    h.stats.rx_frames = u64::MAX;
    m.register("n1", h);
    m.record_rx("n1", 1, 2);
    assert_eq!(m.handle("n1").unwrap().stats.rx_frames, 1);
}

#[test]
fn transport_test_data_running_flag() {
    let mut m = TransportManager::new();
    m.register("gen", test_data_handle(false));
    m.register("serial", serial_handle());
    assert!(!m.is_test_data_running("gen"));
    m.set_test_data_running("gen", true);
    assert!(m.is_test_data_running("gen"));
    m.set_test_data_running("serial", true);
    assert!(!m.is_test_data_running("serial"));
    assert_eq!(m.handle("serial").unwrap().test_data_running, None);
    m.set_test_data_running("gen", false);
    assert!(!m.is_test_data_running("gen"));
    assert!(!m.is_test_data_running("nobody"));
}

#[test]
fn transport_state_and_stats_queries() {
    let mut m = TransportManager::new();
    assert_eq!(m.state("n1"), None);
    assert_eq!(m.stats("n1"), None);
    let mut h = serial_handle();
    h.state = ConnectionState::Connecting;
    m.register("n1", h);
    m.record_rx("n1", 7, 2);
    assert_eq!(m.state("n1"), Some(ConnectionState::Connecting));
    let st = m.stats("n1").unwrap();
    assert_eq!((st.rx_bytes, st.rx_frames, st.tx_bytes), (7, 2, 0));
    m.close("n1");
    assert_eq!(m.state("n1"), None);
}
