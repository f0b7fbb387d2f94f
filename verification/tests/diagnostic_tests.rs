use vofa_next::diagnostic::{
    DiagnosticConfig, DtcStatus, IsoTpConfig, ObdMode, UdsNrc, UdsService,
};

#[test]
fn uds_service_roundtrip() {
    for sid in [0x10u8, 0x27, 0x22, 0x2E, 0x19, 0x3E, 0x85] {
        let svc = UdsService::from_byte(sid);
        assert_eq!(svc.to_byte(), sid);
    }
    let other = UdsService::from_byte(0xAB);
    assert_eq!(other.to_byte(), 0xAB);
}

#[test]
fn obd_mode_roundtrip() {
    for m in [0x01, 0x03, 0x04, 0x07, 0x09, 0x0A] {
        let mode = ObdMode::from_byte(m);
        assert_eq!(mode.to_byte(), m);
    }
}

#[test]
fn nrc_known_codes() {
    assert_eq!(UdsNrc::from_byte(0x11), UdsNrc::ServiceNotSupported);
    assert_eq!(UdsNrc::from_byte(0x33), UdsNrc::SecurityAccessDenied);
    assert_eq!(UdsNrc::from_byte(0xEE), UdsNrc::Other(0xEE));
}

#[test]
fn dtc_status_bits() {
    let active = DtcStatus(0x01);
    assert!(active.is_active());
    assert!(!active.is_pending());

    let pending = DtcStatus(0x04);
    assert!(!pending.is_active());
    assert!(pending.is_pending());

    let permanent = DtcStatus(0x08);
    assert!(permanent.is_permanent());
}

#[test]
fn diagnostic_config_default_is_uds() {
    let cfg = DiagnosticConfig::default();
    assert!(matches!(cfg, DiagnosticConfig::Uds { .. }));
}

#[test]
fn isotp_config_default_ids() {
    let cfg = IsoTpConfig::default();
    assert_eq!(cfg.tx_id, 0x7E0);
    assert_eq!(cfg.rx_id, 0x7E8);
    assert_eq!(cfg.timeout_ms, 1000);
}

#[test]
fn uds_service_every_byte_roundtrips() {
    for sid in 0u8..=255 {
        assert_eq!(UdsService::from_byte(sid).to_byte(), sid);
    }
}

#[test]
fn obd_mode_every_byte_roundtrips() {
    for b in 0u8..=255 {
        assert_eq!(ObdMode::from_byte(b).to_byte(), b);
    }
}

#[test]
fn dtc_status_confirmed_reads_bit_three() {
    assert!(DtcStatus(0x08).is_confirmed());
    assert!(!DtcStatus(0x07).is_confirmed());
}
