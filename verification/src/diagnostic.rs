//! Diagnostic code tables (UDS services and negative response codes, OBD-II
//! modes, DTC status bits) and diagnostic session configuration.

use vstd::prelude::*;

verus! {

/// ISO-TP addressing mode.
#[derive(Debug, Clone, Copy, PartialEq, Eq, Structural, Default)]
pub enum IsoTpAddressMode {
    #[default]
    Normal,
    Extended,
    Mixed,
}

/// UDS service identifier (ISO 14229-1); unknown identifiers keep their byte.
#[derive(Debug, Clone, Copy, PartialEq, Eq, Structural)]
pub enum UdsService {
    DiagnosticSessionControl,
    EcuReset,
    SecurityAccess,
    ReadDataByIdentifier,
    ReadMemoryByAddress,
    WriteDataByIdentifier,
    ReadDtcInformation,
    ClearDiagnosticInformation,
    RoutineControl,
    RequestDownload,
    TransferData,
    RequestTransferExit,
    TesterPresent,
    ControlDtcSetting,
    Other(u8),
}

impl UdsService {
    pub open spec fn from_byte_spec(sid: u8) -> UdsService {
        match sid {
            0x10 => UdsService::DiagnosticSessionControl,
            0x11 => UdsService::EcuReset,
            0x27 => UdsService::SecurityAccess,
            0x22 => UdsService::ReadDataByIdentifier,
            0x23 => UdsService::ReadMemoryByAddress,
            0x2E => UdsService::WriteDataByIdentifier,
            0x19 => UdsService::ReadDtcInformation,
            0x14 => UdsService::ClearDiagnosticInformation,
            0x31 => UdsService::RoutineControl,
            0x34 => UdsService::RequestDownload,
            0x36 => UdsService::TransferData,
            0x37 => UdsService::RequestTransferExit,
            0x3E => UdsService::TesterPresent,
            0x85 => UdsService::ControlDtcSetting,
            other => UdsService::Other(other),
        }
    }

    pub open spec fn to_byte_spec(self) -> u8 {
        match self {
            UdsService::DiagnosticSessionControl => 0x10,
            UdsService::EcuReset => 0x11,
            UdsService::SecurityAccess => 0x27,
            UdsService::ReadDataByIdentifier => 0x22,
            UdsService::ReadMemoryByAddress => 0x23,
            UdsService::WriteDataByIdentifier => 0x2E,
            UdsService::ReadDtcInformation => 0x19,
            UdsService::ClearDiagnosticInformation => 0x14,
            UdsService::RoutineControl => 0x31,
            UdsService::RequestDownload => 0x34,
            UdsService::TransferData => 0x36,
            UdsService::RequestTransferExit => 0x37,
            UdsService::TesterPresent => 0x3E,
            UdsService::ControlDtcSetting => 0x85,
            UdsService::Other(b) => b,
        }
    }

    /// A value `from_byte` can produce: named services, or `Other` holding an
    /// identifier that has no name.
    pub open spec fn is_canonical(self) -> bool {
        self matches UdsService::Other(b) ==> UdsService::from_byte_spec(b) is Other
    }

    /// Service for a SID byte.
    pub fn from_byte(sid: u8) -> (r: UdsService)
        ensures
            r == Self::from_byte_spec(sid),
    {
        match sid {
            0x10 => UdsService::DiagnosticSessionControl,
            0x11 => UdsService::EcuReset,
            0x27 => UdsService::SecurityAccess,
            0x22 => UdsService::ReadDataByIdentifier,
            0x23 => UdsService::ReadMemoryByAddress,
            0x2E => UdsService::WriteDataByIdentifier,
            0x19 => UdsService::ReadDtcInformation,
            0x14 => UdsService::ClearDiagnosticInformation,
            0x31 => UdsService::RoutineControl,
            0x34 => UdsService::RequestDownload,
            0x36 => UdsService::TransferData,
            0x37 => UdsService::RequestTransferExit,
            0x3E => UdsService::TesterPresent,
            0x85 => UdsService::ControlDtcSetting,
            other => UdsService::Other(other),
        }
    }

    /// SID byte of a service.
    pub fn to_byte(self) -> (r: u8)
        ensures
            r == self.to_byte_spec(),
    {
        match self {
            UdsService::DiagnosticSessionControl => 0x10,
            UdsService::EcuReset => 0x11,
            UdsService::SecurityAccess => 0x27,
            UdsService::ReadDataByIdentifier => 0x22,
            UdsService::ReadMemoryByAddress => 0x23,
            UdsService::WriteDataByIdentifier => 0x2E,
            UdsService::ReadDtcInformation => 0x19,
            UdsService::ClearDiagnosticInformation => 0x14,
            UdsService::RoutineControl => 0x31,
            UdsService::RequestDownload => 0x34,
            UdsService::TransferData => 0x36,
            UdsService::RequestTransferExit => 0x37,
            UdsService::TesterPresent => 0x3E,
            UdsService::ControlDtcSetting => 0x85,
            UdsService::Other(b) => b,
        }
    }
}

/// Every SID byte survives `from_byte` then `to_byte`.
pub proof fn lemma_uds_service_byte_roundtrip(sid: u8)
    ensures
        UdsService::from_byte_spec(sid).to_byte_spec() == sid,
{
}

/// Every value `from_byte` can produce survives `to_byte` then `from_byte`,
/// and every SID byte maps to such a value.
pub proof fn lemma_uds_service_value_roundtrip(s: UdsService)
    requires
        s.is_canonical(),
    ensures
        UdsService::from_byte_spec(s.to_byte_spec()) == s,
{
}

/// `from_byte` only produces canonical values.
pub proof fn lemma_uds_service_from_byte_canonical(sid: u8)
    ensures
        UdsService::from_byte_spec(sid).is_canonical(),
{
}

/// UDS negative response code (ISO 14229-1 §11.2); unknown codes keep their byte.
#[derive(Debug, Clone, Copy, PartialEq, Eq, Structural)]
pub enum UdsNrc {
    GeneralReject,
    ServiceNotSupported,
    SubFunctionNotSupported,
    IncorrectMessageLengthOrInvalidFormat,
    ConditionsNotCorrect,
    RequestOutOfRange,
    RequestOutOfRange31,
    SecurityAccessDenied,
    InvalidKey,
    ExceedNumberOfAttempts,
    RequiredTimeDelayNotExpired,
    UploadDownloadNotAccepted,
    GeneralProgrammingFailure,
    WrongBlockSequenceCounter,
    Other(u8),
}

impl UdsNrc {
    pub open spec fn from_byte_spec(b: u8) -> UdsNrc {
        match b {
            0x10 => UdsNrc::GeneralReject,
            0x11 => UdsNrc::ServiceNotSupported,
            0x12 => UdsNrc::SubFunctionNotSupported,
            0x13 => UdsNrc::IncorrectMessageLengthOrInvalidFormat,
            0x22 => UdsNrc::ConditionsNotCorrect,
            0x24 => UdsNrc::RequestOutOfRange,
            0x31 => UdsNrc::RequestOutOfRange31,
            0x33 => UdsNrc::SecurityAccessDenied,
            0x35 => UdsNrc::InvalidKey,
            0x36 => UdsNrc::ExceedNumberOfAttempts,
            0x37 => UdsNrc::RequiredTimeDelayNotExpired,
            0x70 => UdsNrc::UploadDownloadNotAccepted,
            0x72 => UdsNrc::GeneralProgrammingFailure,
            0x73 => UdsNrc::WrongBlockSequenceCounter,
            other => UdsNrc::Other(other),
        }
    }

    pub open spec fn to_byte_spec(self) -> u8 {
        match self {
            UdsNrc::GeneralReject => 0x10,
            UdsNrc::ServiceNotSupported => 0x11,
            UdsNrc::SubFunctionNotSupported => 0x12,
            UdsNrc::IncorrectMessageLengthOrInvalidFormat => 0x13,
            UdsNrc::ConditionsNotCorrect => 0x22,
            UdsNrc::RequestOutOfRange => 0x24,
            UdsNrc::RequestOutOfRange31 => 0x31,
            UdsNrc::SecurityAccessDenied => 0x33,
            UdsNrc::InvalidKey => 0x35,
            UdsNrc::ExceedNumberOfAttempts => 0x36,
            UdsNrc::RequiredTimeDelayNotExpired => 0x37,
            UdsNrc::UploadDownloadNotAccepted => 0x70,
            UdsNrc::GeneralProgrammingFailure => 0x72,
            UdsNrc::WrongBlockSequenceCounter => 0x73,
            UdsNrc::Other(b) => b,
        }
    }

    /// A value `from_byte` can produce: named codes, or `Other` holding a
    /// byte that has no name.
    pub open spec fn is_canonical(self) -> bool {
        self matches UdsNrc::Other(b) ==> UdsNrc::from_byte_spec(b) is Other
    }

    /// Byte of a response code.
    pub fn to_byte(self) -> (r: u8)
        ensures
            r == self.to_byte_spec(),
    {
        match self {
            UdsNrc::GeneralReject => 0x10,
            UdsNrc::ServiceNotSupported => 0x11,
            UdsNrc::SubFunctionNotSupported => 0x12,
            UdsNrc::IncorrectMessageLengthOrInvalidFormat => 0x13,
            UdsNrc::ConditionsNotCorrect => 0x22,
            UdsNrc::RequestOutOfRange => 0x24,
            UdsNrc::RequestOutOfRange31 => 0x31,
            UdsNrc::SecurityAccessDenied => 0x33,
            UdsNrc::InvalidKey => 0x35,
            UdsNrc::ExceedNumberOfAttempts => 0x36,
            UdsNrc::RequiredTimeDelayNotExpired => 0x37,
            UdsNrc::UploadDownloadNotAccepted => 0x70,
            UdsNrc::GeneralProgrammingFailure => 0x72,
            UdsNrc::WrongBlockSequenceCounter => 0x73,
            UdsNrc::Other(b) => b,
        }
    }

    /// Response code for a byte.
    pub fn from_byte(b: u8) -> (r: UdsNrc)
        ensures
            r == Self::from_byte_spec(b),
    {
        match b {
            0x10 => UdsNrc::GeneralReject,
            0x11 => UdsNrc::ServiceNotSupported,
            0x12 => UdsNrc::SubFunctionNotSupported,
            0x13 => UdsNrc::IncorrectMessageLengthOrInvalidFormat,
            0x22 => UdsNrc::ConditionsNotCorrect,
            0x24 => UdsNrc::RequestOutOfRange,
            0x31 => UdsNrc::RequestOutOfRange31,
            0x33 => UdsNrc::SecurityAccessDenied,
            0x35 => UdsNrc::InvalidKey,
            0x36 => UdsNrc::ExceedNumberOfAttempts,
            0x37 => UdsNrc::RequiredTimeDelayNotExpired,
            0x70 => UdsNrc::UploadDownloadNotAccepted,
            0x72 => UdsNrc::GeneralProgrammingFailure,
            0x73 => UdsNrc::WrongBlockSequenceCounter,
            other => UdsNrc::Other(other),
        }
    }
}

/// OBD-II service mode (SAE J1979); unknown modes keep their byte.
#[derive(Debug, Clone, Copy, PartialEq, Eq, Structural)]
pub enum ObdMode {
    CurrentData,
    FreezeFrame,
    ReadDtc,
    ClearDtc,
    TestResultsNonCan,
    TestResultsCan,
    PendingDtc,
    ControlOperation,
    VehicleInfo,
    PermanentDtc,
    Other(u8),
}

impl ObdMode {
    pub open spec fn from_byte_spec(b: u8) -> ObdMode {
        match b {
            0x01 => ObdMode::CurrentData,
            0x02 => ObdMode::FreezeFrame,
            0x03 => ObdMode::ReadDtc,
            0x04 => ObdMode::ClearDtc,
            0x05 => ObdMode::TestResultsNonCan,
            0x06 => ObdMode::TestResultsCan,
            0x07 => ObdMode::PendingDtc,
            0x08 => ObdMode::ControlOperation,
            0x09 => ObdMode::VehicleInfo,
            0x0A => ObdMode::PermanentDtc,
            other => ObdMode::Other(other),
        }
    }

    pub open spec fn to_byte_spec(self) -> u8 {
        match self {
            ObdMode::CurrentData => 0x01,
            ObdMode::FreezeFrame => 0x02,
            ObdMode::ReadDtc => 0x03,
            ObdMode::ClearDtc => 0x04,
            ObdMode::TestResultsNonCan => 0x05,
            ObdMode::TestResultsCan => 0x06,
            ObdMode::PendingDtc => 0x07,
            ObdMode::ControlOperation => 0x08,
            ObdMode::VehicleInfo => 0x09,
            ObdMode::PermanentDtc => 0x0A,
            ObdMode::Other(b) => b,
        }
    }

    pub open spec fn is_canonical(self) -> bool {
        self matches ObdMode::Other(b) ==> ObdMode::from_byte_spec(b) is Other
    }

    /// Mode for a byte.
    pub fn from_byte(b: u8) -> (r: ObdMode)
        ensures
            r == Self::from_byte_spec(b),
    {
        match b {
            0x01 => ObdMode::CurrentData,
            0x02 => ObdMode::FreezeFrame,
            0x03 => ObdMode::ReadDtc,
            0x04 => ObdMode::ClearDtc,
            0x05 => ObdMode::TestResultsNonCan,
            0x06 => ObdMode::TestResultsCan,
            0x07 => ObdMode::PendingDtc,
            0x08 => ObdMode::ControlOperation,
            0x09 => ObdMode::VehicleInfo,
            0x0A => ObdMode::PermanentDtc,
            other => ObdMode::Other(other),
        }
    }

    /// Byte of a mode.
    pub fn to_byte(self) -> (r: u8)
        ensures
            r == self.to_byte_spec(),
    {
        match self {
            ObdMode::CurrentData => 0x01,
            ObdMode::FreezeFrame => 0x02,
            ObdMode::ReadDtc => 0x03,
            ObdMode::ClearDtc => 0x04,
            ObdMode::TestResultsNonCan => 0x05,
            ObdMode::TestResultsCan => 0x06,
            ObdMode::PendingDtc => 0x07,
            ObdMode::ControlOperation => 0x08,
            ObdMode::VehicleInfo => 0x09,
            ObdMode::PermanentDtc => 0x0A,
            ObdMode::Other(b) => b,
        }
    }
}

/// Every mode byte survives `from_byte` then `to_byte`.
pub proof fn lemma_obd_mode_byte_roundtrip(b: u8)
    ensures
        ObdMode::from_byte_spec(b).to_byte_spec() == b,
{
}

/// Every value `from_byte` can produce survives `to_byte` then `from_byte`.
pub proof fn lemma_obd_mode_value_roundtrip(m: ObdMode)
    requires
        m.is_canonical(),
    ensures
        ObdMode::from_byte_spec(m.to_byte_spec()) == m,
{
}

/// The named UDS services and their service identifiers (ISO 14229-1).
pub open spec fn uds_service_codes() -> Seq<(u8, UdsService)> {
    seq![
        (0x10u8, UdsService::DiagnosticSessionControl),
        (0x11u8, UdsService::EcuReset),
        (0x14u8, UdsService::ClearDiagnosticInformation),
        (0x19u8, UdsService::ReadDtcInformation),
        (0x22u8, UdsService::ReadDataByIdentifier),
        (0x23u8, UdsService::ReadMemoryByAddress),
        (0x27u8, UdsService::SecurityAccess),
        (0x2Eu8, UdsService::WriteDataByIdentifier),
        (0x31u8, UdsService::RoutineControl),
        (0x34u8, UdsService::RequestDownload),
        (0x36u8, UdsService::TransferData),
        (0x37u8, UdsService::RequestTransferExit),
        (0x3Eu8, UdsService::TesterPresent),
        (0x85u8, UdsService::ControlDtcSetting),
    ]
}

/// The named UDS negative response codes and their bytes (ISO 14229-1 annex A).
pub open spec fn uds_nrc_codes() -> Seq<(u8, UdsNrc)> {
    seq![
        (0x10u8, UdsNrc::GeneralReject),
        (0x11u8, UdsNrc::ServiceNotSupported),
        (0x12u8, UdsNrc::SubFunctionNotSupported),
        (0x13u8, UdsNrc::IncorrectMessageLengthOrInvalidFormat),
        (0x22u8, UdsNrc::ConditionsNotCorrect),
        (0x24u8, UdsNrc::RequestOutOfRange),
        (0x31u8, UdsNrc::RequestOutOfRange31),
        (0x33u8, UdsNrc::SecurityAccessDenied),
        (0x35u8, UdsNrc::InvalidKey),
        (0x36u8, UdsNrc::ExceedNumberOfAttempts),
        (0x37u8, UdsNrc::RequiredTimeDelayNotExpired),
        (0x70u8, UdsNrc::UploadDownloadNotAccepted),
        (0x72u8, UdsNrc::GeneralProgrammingFailure),
        (0x73u8, UdsNrc::WrongBlockSequenceCounter),
    ]
}

/// The named OBD-II service modes and their bytes (SAE J1979).
pub open spec fn obd_mode_codes() -> Seq<(u8, ObdMode)> {
    seq![
        (0x01u8, ObdMode::CurrentData),
        (0x02u8, ObdMode::FreezeFrame),
        (0x03u8, ObdMode::ReadDtc),
        (0x04u8, ObdMode::ClearDtc),
        (0x05u8, ObdMode::TestResultsNonCan),
        (0x06u8, ObdMode::TestResultsCan),
        (0x07u8, ObdMode::PendingDtc),
        (0x08u8, ObdMode::ControlOperation),
        (0x09u8, ObdMode::VehicleInfo),
        (0x0Au8, ObdMode::PermanentDtc),
    ]
}

/// Each named UDS service has its ISO 14229-1 identifier: `from_byte` of the
/// identifier gives the service, `to_byte` of the service gives the
/// identifier, and every other byte is kept as `Other`.
pub proof fn lemma_uds_service_table(b: u8)
    ensures
        forall|i: int|
            0 <= i < uds_service_codes().len() ==> UdsService::from_byte_spec(#[trigger] uds_service_codes()[i].0)
                == uds_service_codes()[i].1 && uds_service_codes()[i].1.to_byte_spec() == uds_service_codes()[i].0,
        (forall|i: int| 0 <= i < uds_service_codes().len() ==> #[trigger] uds_service_codes()[i].0 != b)
            ==> UdsService::from_byte_spec(b) == UdsService::Other(b),
{
    assert forall|i: int| 0 <= i < uds_service_codes().len() implies UdsService::from_byte_spec(
        #[trigger] uds_service_codes()[i].0,
    ) == uds_service_codes()[i].1 && uds_service_codes()[i].1.to_byte_spec() == uds_service_codes()[i].0 by {
        lemma_table_index(i, 14);
    }
    if forall|i: int| 0 <= i < uds_service_codes().len() ==> #[trigger] uds_service_codes()[i].0 != b {
        let t = uds_service_codes();
        assert(t[0].0 != b && t[1].0 != b && t[2].0 != b && t[3].0 != b && t[4].0 != b && t[5].0 != b
            && t[6].0 != b && t[7].0 != b && t[8].0 != b && t[9].0 != b && t[10].0 != b && t[11].0 != b
            && t[12].0 != b && t[13].0 != b);
    }
}

/// Each named negative response code has its ISO 14229-1 byte: `from_byte`
/// of the byte gives the code, `to_byte` of the code gives the byte, and
/// every other byte is kept as `Other`.
pub proof fn lemma_uds_nrc_table(b: u8)
    ensures
        forall|i: int|
            0 <= i < uds_nrc_codes().len() ==> UdsNrc::from_byte_spec(#[trigger] uds_nrc_codes()[i].0)
                == uds_nrc_codes()[i].1 && uds_nrc_codes()[i].1.to_byte_spec() == uds_nrc_codes()[i].0,
        (forall|i: int| 0 <= i < uds_nrc_codes().len() ==> #[trigger] uds_nrc_codes()[i].0 != b)
            ==> UdsNrc::from_byte_spec(b) == UdsNrc::Other(b),
{
    assert forall|i: int| 0 <= i < uds_nrc_codes().len() implies UdsNrc::from_byte_spec(
        #[trigger] uds_nrc_codes()[i].0,
    ) == uds_nrc_codes()[i].1 && uds_nrc_codes()[i].1.to_byte_spec() == uds_nrc_codes()[i].0 by {
        lemma_table_index(i, 14);
    }
    if forall|i: int| 0 <= i < uds_nrc_codes().len() ==> #[trigger] uds_nrc_codes()[i].0 != b {
        let t = uds_nrc_codes();
        assert(t[0].0 != b && t[1].0 != b && t[2].0 != b && t[3].0 != b && t[4].0 != b && t[5].0 != b
            && t[6].0 != b && t[7].0 != b && t[8].0 != b && t[9].0 != b && t[10].0 != b && t[11].0 != b
            && t[12].0 != b && t[13].0 != b);
    }
}

/// Each named OBD-II mode has its SAE J1979 byte: `from_byte` of the byte
/// gives the mode, `to_byte` of the mode gives the byte, and every other byte
/// is kept as `Other`.
pub proof fn lemma_obd_mode_table(b: u8)
    ensures
        forall|i: int|
            0 <= i < obd_mode_codes().len() ==> ObdMode::from_byte_spec(#[trigger] obd_mode_codes()[i].0)
                == obd_mode_codes()[i].1 && obd_mode_codes()[i].1.to_byte_spec() == obd_mode_codes()[i].0,
        (forall|i: int| 0 <= i < obd_mode_codes().len() ==> #[trigger] obd_mode_codes()[i].0 != b)
            ==> ObdMode::from_byte_spec(b) == ObdMode::Other(b),
{
    assert forall|i: int| 0 <= i < obd_mode_codes().len() implies ObdMode::from_byte_spec(
        #[trigger] obd_mode_codes()[i].0,
    ) == obd_mode_codes()[i].1 && obd_mode_codes()[i].1.to_byte_spec() == obd_mode_codes()[i].0 by {
        lemma_table_index(i, 10);
    }
    if forall|i: int| 0 <= i < obd_mode_codes().len() ==> #[trigger] obd_mode_codes()[i].0 != b {
        let t = obd_mode_codes();
        assert(t[0].0 != b && t[1].0 != b && t[2].0 != b && t[3].0 != b && t[4].0 != b && t[5].0 != b
            && t[6].0 != b && t[7].0 != b && t[8].0 != b && t[9].0 != b);
    }
}

proof fn lemma_table_index(i: int, n: int)
    requires
        0 <= i < n,
        n <= 14,
    ensures
        i == 0 || i == 1 || i == 2 || i == 3 || i == 4 || i == 5 || i == 6 || i == 7 || i == 8 || i == 9
            || i == 10 || i == 11 || i == 12 || i == 13,
{
}

/// Every response-code byte survives `from_byte` then `to_byte`.
pub proof fn lemma_uds_nrc_byte_roundtrip(b: u8)
    ensures
        UdsNrc::from_byte_spec(b).to_byte_spec() == b,
{
}

/// Every value `from_byte` can produce survives `to_byte` then `from_byte`.
pub proof fn lemma_uds_nrc_value_roundtrip(n: UdsNrc)
    requires
        n.is_canonical(),
    ensures
        UdsNrc::from_byte_spec(n.to_byte_spec()) == n,
{
}

/// DTC status byte (ISO 15031-6 statusMask).
#[derive(Debug, Clone, Copy, PartialEq, Eq, Structural, Default)]
pub struct DtcStatus(pub u8);

impl DtcStatus {
    /// Bit 0.
    pub fn is_active(self) -> (r: bool)
        ensures
            r == (self.0 & 0x01 != 0),
    {
        self.0 & 0x01 != 0
    }

    /// Bit 2.
    pub fn is_pending(self) -> (r: bool)
        ensures
            r == (self.0 & 0x04 != 0),
    {
        self.0 & 0x04 != 0
    }

    /// Bit 3.
    pub fn is_permanent(self) -> (r: bool)
        ensures
            r == (self.0 & 0x08 != 0),
    {
        self.0 & 0x08 != 0
    }

    /// Bit 3 (the same bit as `is_permanent`).
    pub fn is_confirmed(self) -> (r: bool)
        ensures
            r == (self.0 & 0x08 != 0),
    {
        self.0 & 0x08 != 0
    }
}

/// Diagnostic trouble code, e.g. "P0420".
#[derive(Debug, Clone, PartialEq, Eq)]
pub struct Dtc {
    pub code: String,
    pub status: DtcStatus,
}

/// J1939 message identity.
#[derive(Debug, Clone, Copy, PartialEq, Eq, Structural)]
pub struct J1939Id {
    pub priority: u8,
    pub pgn: u32,
    pub source: u8,
    pub destination: u8,
}

/// ISO-TP session settings.
#[derive(Debug, Clone, PartialEq, Eq, Structural)]
pub struct IsoTpConfig {
    pub tx_id: u32,
    pub rx_id: u32,
    pub block_size: u8,
    pub st_min: u8,
    pub address_mode: IsoTpAddressMode,
    pub padding: Option<u8>,
    pub timeout_ms: u32,
}

impl Default for IsoTpConfig {
    /// Tester 0x7E0 / ECU 0x7E8, no flow-control limits, 1 s timeout.
    fn default() -> (r: Self)
        ensures
            r.tx_id == 0x7E0,
            r.rx_id == 0x7E8,
            r.block_size == 0,
            r.st_min == 0,
            r.address_mode == IsoTpAddressMode::Normal,
            r.padding is None,
            r.timeout_ms == 1000,
    {
        IsoTpConfig {
            tx_id: 0x7E0,
            rx_id: 0x7E8,
            block_size: 0,
            st_min: 0,
            address_mode: IsoTpAddressMode::Normal,
            padding: None,
            timeout_ms: 1000,
        }
    }
}

/// UDS client timing.
#[derive(Debug, Clone, PartialEq, Eq, Structural)]
pub struct UdsConfig {
    pub p2_timeout_ms: u32,
    pub tester_present_interval_ms: u32,
}

impl Default for UdsConfig {
    fn default() -> (r: Self)
        ensures
            r.p2_timeout_ms == 5000,
            r.tester_present_interval_ms == 2000,
    {
        UdsConfig { p2_timeout_ms: 5000, tester_present_interval_ms: 2000 }
    }
}

/// OBD-II client settings.
#[derive(Debug, Clone, PartialEq, Eq, Structural)]
pub struct ObdConfig {
    pub poll_interval_ms: u32,
    pub default_request_id: u32,
    pub default_response_id: u32,
}

impl Default for ObdConfig {
    fn default() -> (r: Self)
        ensures
            r.poll_interval_ms == 100,
            r.default_request_id == 0x7DF,
            r.default_response_id == 0x7E8,
    {
        ObdConfig { poll_interval_ms: 100, default_request_id: 0x7DF, default_response_id: 0x7E8 }
    }
}

/// J1939 listener settings.
#[derive(Debug, Clone, PartialEq, Eq, Structural)]
pub struct J1939Config {
    pub source_address: u8,
    pub heartbeat_interval_ms: u32,
}

impl Default for J1939Config {
    fn default() -> (r: Self)
        ensures
            r.source_address == 0,
            r.heartbeat_interval_ms == 0,
    {
        J1939Config { source_address: 0, heartbeat_interval_ms: 0 }
    }
}

/// Diagnostic protocol configuration.
#[derive(Debug, Clone, PartialEq, Eq, Structural)]
pub enum DiagnosticConfig {
    IsoTp { config: IsoTpConfig },
    Uds { isotp: IsoTpConfig, uds: UdsConfig },
    Obd { isotp: IsoTpConfig, obd: ObdConfig },
    J1939 { j1939: J1939Config },
}

impl Default for DiagnosticConfig {
    /// A UDS client with default ISO-TP and UDS settings.
    fn default() -> (r: Self)
        ensures
            r matches DiagnosticConfig::Uds { isotp, uds } && isotp.tx_id == 0x7E0 && isotp.rx_id
                == 0x7E8 && isotp.timeout_ms == 1000 && uds.p2_timeout_ms == 5000,
    {
        DiagnosticConfig::Uds { isotp: IsoTpConfig::default(), uds: UdsConfig::default() }
    }
}

} // verus!
