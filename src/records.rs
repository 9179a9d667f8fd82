//! Decoded records as the decoder hands them over, the errors of a read,
//! and the check that a decoded file is of the kind a caller asked for.
//!
//! Measured quantities are carried as the IEEE-754 bit patterns of 64-bit
//! floats: the reshaping engine moves them around and never reads them.

use vstd::prelude::*;
use crate::constellation::Constellation;

verus! {

/// Bit pattern of the canonical quiet NaN, which stands for an absent value.
pub const NAN_BITS: u64 = 0x7ff8_0000_0000_0000;

/// What kind of records a decoded file holds.
#[derive(Clone, Copy, Debug, PartialEq, Eq, Structural)]
pub enum RecordKind {
    Observation,
    Navigation,
    Meteo,
    Other,
}

/// The name under which a kind of file is described.
pub open spec fn kind_name_of(k: RecordKind) -> Seq<char> {
    match k {
        RecordKind::Observation => "Observation"@,
        RecordKind::Navigation => "Navigation"@,
        RecordKind::Meteo => "Meteo"@,
        RecordKind::Other => "Unknown"@,
    }
}

impl RecordKind {
    /// The name under which this kind of file is described.
    pub fn name(&self) -> (r: String)
        ensures
            r@ == kind_name_of(*self),
    {
        match self {
            RecordKind::Observation => "Observation".to_string(),
            RecordKind::Navigation => "Navigation".to_string(),
            RecordKind::Meteo => "Meteo".to_string(),
            RecordKind::Other => "Unknown".to_string(),
        }
    }
}

/// Receiver position in ECEF coordinates, as float bit patterns.
#[derive(Clone, Copy, Debug, PartialEq, Eq, Structural)]
pub struct Position {
    pub x: u64,
    pub y: u64,
    pub z: u64,
}

/// One decoded signal of one satellite at one epoch.
#[derive(Clone, Debug)]
pub struct Signal {
    pub sv: String,
    pub observable: String,
    pub value: u64,
    pub lli: Option<u8>,
}

/// The signals decoded at one epoch, in decoder order.
#[derive(Clone, Debug)]
pub struct ObsEpoch {
    pub epoch: String,
    pub signals: Vec<Signal>,
}

/// One orbital parameter of an ephemeris frame.
#[derive(Clone, Debug)]
pub struct OrbitParam {
    pub name: String,
    pub value: u64,
}

/// One decoded ephemeris frame: a satellite, its epoch, its clock terms and
/// the orbital parameters that this frame carries.
#[derive(Clone, Debug)]
pub struct NavFrame {
    pub constellation: Constellation,
    pub prn: u8,
    pub sv: String,
    pub epoch: String,
    pub clock_bias: u64,
    pub clock_drift: u64,
    pub clock_drift_rate: u64,
    pub orbits: Vec<OrbitParam>,
}

/// A decoded file: its kind, the header's receiver position, and its records.
#[derive(Clone, Debug)]
pub struct DecodedFile {
    pub kind: RecordKind,
    pub rx_position: Option<Position>,
    pub observations: Vec<ObsEpoch>,
    pub frames: Vec<NavFrame>,
}

/// Why a read failed.
#[derive(Clone, Debug)]
pub enum ReadError {
    /// The path does not name a readable file.
    NotFound,
    /// The decoder refused the file; its message is kept as it was.
    DecodeError(String),
    /// The file decoded, but holds another kind of records.
    WrongRecordKind,
    /// The table storage refused the assembled columns.
    SchemaBuildError(String),
}

/// Checks a read before any reshaping: the file must exist, decode, and be
/// of the expected kind, in that order of precedence.
pub fn validate(exists: bool, decoded: Result<DecodedFile, String>, expected: RecordKind) -> (r:
    Result<DecodedFile, ReadError>)
    ensures
        !exists ==> r matches Err(ReadError::NotFound),
        exists ==> match decoded {
            Err(m) => r matches Err(ReadError::DecodeError(m2)) && m2@ == m@,
            Ok(d) => if d.kind == expected {
                r == Ok::<DecodedFile, ReadError>(d)
            } else {
                r matches Err(ReadError::WrongRecordKind)
            },
        },
{
    if !exists {
        return Err(ReadError::NotFound);
    }
    match decoded {
        Err(m) => Err(ReadError::DecodeError(m)),
        Ok(d) => {
            if d.kind == expected {
                Ok(d)
            } else {
                Err(ReadError::WrongRecordKind)
            }
        },
    }
}

/// The receiver position, or NaN in each coordinate where the header has none.
pub fn receiver_position(p: Option<Position>) -> (r: Position)
    ensures
        r == (match p {
            Some(q) => q,
            None => Position { x: NAN_BITS, y: NAN_BITS, z: NAN_BITS },
        }),
{
    match p {
        Some(q) => q,
        None => Position { x: NAN_BITS, y: NAN_BITS, z: NAN_BITS },
    }
}

} // verus!
