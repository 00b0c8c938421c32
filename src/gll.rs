use crate::digits::{find_byte, first_at_or_after};
use crate::fields::{
    coordinate_spec, parse_coordinate, parse_time, time_spec, Coordinate, CoordinateView,
    TimeOfDay, TimeView,
};
use vstd::prelude::*;
use vstd::slice::slice_to_vec;

verus! {

/// Positioning system mode indicator (present from NMEA 2.3 on).
#[derive(Clone, Copy, Debug, PartialEq, Eq, Structural)]
pub enum PosSystemIndicator {
    Autonomous,
    Differential,
    EstimatedMode,
    ManualInput,
    DataNotValid,
}

/// The mode that a letter stands for; any letter but `A`, `D`, `E` and `M`
/// stands for `DataNotValid`.
pub open spec fn indicator_of(c: char) -> PosSystemIndicator {
    if c == 'A' {
        PosSystemIndicator::Autonomous
    } else if c == 'D' {
        PosSystemIndicator::Differential
    } else if c == 'E' {
        PosSystemIndicator::EstimatedMode
    } else if c == 'M' {
        PosSystemIndicator::ManualInput
    } else {
        PosSystemIndicator::DataNotValid
    }
}

impl From<char> for PosSystemIndicator {
    fn from(b: char) -> (r: Self)
        ensures
            r == indicator_of(b),
    {
        match b {
            'A' => PosSystemIndicator::Autonomous,
            'D' => PosSystemIndicator::Differential,
            'E' => PosSystemIndicator::EstimatedMode,
            'M' => PosSystemIndicator::ManualInput,
            'N' => PosSystemIndicator::DataNotValid,
            _ => PosSystemIndicator::DataNotValid,
        }
    }
}

impl vstd::std_specs::convert::FromSpecImpl<char> for PosSystemIndicator {
    open spec fn obeys_from_spec() -> bool {
        true
    }

    open spec fn from_spec(v: char) -> Self {
        indicator_of(v)
    }
}

/// Data status. The NMEA standard asks for `Invalid` with every mode but
/// `Autonomous` and `Differential`; that is not checked here.
#[derive(Clone, Copy, Debug, PartialEq, Eq, Structural)]
pub enum GLLDataStatus {
    Valid,
    Invalid,
}

/// The status that a letter stands for: `A` is valid, anything else invalid.
pub open spec fn status_of(c: char) -> GLLDataStatus {
    if c == 'A' {
        GLLDataStatus::Valid
    } else {
        GLLDataStatus::Invalid
    }
}

impl From<char> for GLLDataStatus {
    fn from(b: char) -> (r: Self)
        ensures
            r == status_of(b),
    {
        match b {
            'A' => GLLDataStatus::Valid,
            _ => GLLDataStatus::Invalid,
        }
    }
}

impl vstd::std_specs::convert::FromSpecImpl<char> for GLLDataStatus {
    open spec fn obeys_from_spec() -> bool {
        true
    }

    open spec fn from_spec(v: char) -> Self {
        status_of(v)
    }
}

/// A decoded GLL sentence, as mathematical values.
pub struct GllView {
    pub latitude: CoordinateView,
    pub longitude: CoordinateView,
    pub fix_time: TimeView,
    pub data_state: GLLDataStatus,
    pub mode: Option<PosSystemIndicator>,
}

/// A decoded GLL sentence: position, time of the fix, status and mode.
#[derive(Clone, Copy, Debug, PartialEq)]
pub struct GllData {
    pub latitude: Coordinate,
    pub longitude: Coordinate,
    pub fix_time: TimeOfDay,
    pub data_state: GLLDataStatus,
    pub mode: Option<PosSystemIndicator>,
}

impl View for GllData {
    type V = GllView;

    open spec fn view(&self) -> GllView {
        GllView {
            latitude: self.latitude@,
            longitude: self.longitude@,
            fix_time: self.fix_time@,
            data_state: self.data_state,
            mode: self.mode,
        }
    }
}

/// A sentence split by the framing layer: its identifier (without the
/// talker), its payload (the fields after the identifier, without the
/// checksum) and its checksum.
pub struct NmeaSentence<'a> {
    pub message_id: &'a [u8],
    pub data: &'a [u8],
    pub checksum: u8,
}

/// The part of a GLL payload at which decoding stopped.
#[derive(Clone, Copy, Debug, PartialEq, Eq, Structural)]
pub enum GllField {
    /// The latitude and longitude with their hemisphere letters.
    Position,
    /// A ',' between two fields.
    Separator,
    /// The time of the fix.
    FixTime,
    /// The data status letter.
    DataStatus,
}

/// Why a sentence could not be decoded.
#[derive(Debug, PartialEq)]
pub enum NmeaError {
    /// The sentence is of another type than the one asked for.
    WrongSentenceHeader { expected: Vec<u8>, found: Vec<u8> },
    /// The payload does not follow the grammar: `field` begins at byte
    /// `position` of the payload.
    ParsingError { field: GllField, position: usize },
}

/// The identifier of the GLL sentence.
pub open spec fn gll_id() -> Seq<u8> {
    seq![71u8, 76u8, 76u8]
}

/// Latitude (two digits of degrees, hemisphere `N` or `S`), ',', then
/// longitude (three digits of degrees, hemisphere `E` or `W`), from the
/// start of `s`. Gives both and the position after the second letter.
pub open spec fn lat_lon_spec(s: Seq<u8>) -> Option<(CoordinateView, CoordinateView, int)> {
    match coordinate_spec(s, 0, 2, 78, 83) {
        Some((lat, e)) => if e < s.len() && s[e] == 44 {
            match coordinate_spec(s, e + 1, 3, 69, 87) {
                Some((lon, f)) => Some((lat, lon, f)),
                None => None,
            }
        } else {
            None
        },
        None => None,
    }
}

/// The payload up to the status letter: position, ',', time, any bytes up
/// to the next ',' (a trailer that is not read), and that ','. Gives what
/// was decoded and the position of the status letter, or the field at which
/// decoding stops and where that field begins.
pub open spec fn head_spec(s: Seq<u8>) -> Result<
    (CoordinateView, CoordinateView, TimeView, int),
    (GllField, int),
> {
    match lat_lon_spec(s) {
        None => Err((GllField::Position, 0)),
        Some((lat, lon, p)) => if !(p < s.len() && s[p] == 44) {
            Err((GllField::Separator, p))
        } else {
            match time_spec(s, p + 1) {
                None => Err((GllField::FixTime, p + 1)),
                Some((t, q)) => {
                    let c = first_at_or_after(s, q, 44);
                    if c < s.len() {
                        Ok((lat, lon, t, c + 1))
                    } else {
                        Err((GllField::Separator, q))
                    }
                },
            }
        },
    }
}

/// Whether a byte is one of the mode letters `A`, `D`, `E`, `M`.
pub open spec fn is_mode_letter(b: u8) -> bool {
    b == 65 || b == 68 || b == 69 || b == 77
}

/// The mode at position `p` of `s`: present only where a mode letter stands
/// there.
pub open spec fn mode_spec(s: Seq<u8>, p: int) -> Option<PosSystemIndicator> {
    if 0 <= p < s.len() && is_mode_letter(s[p]) {
        Some(indicator_of(s[p] as char))
    } else {
        None
    }
}

/// The GLL payload `s` decoded: the head (see `head_spec`), the status
/// letter (`A` or `V`), ',', and an optional mode letter. Bytes after that
/// are not read.
pub open spec fn gll_spec(s: Seq<u8>) -> Result<GllView, (GllField, int)> {
    match head_spec(s) {
        Err(e) => Err(e),
        Ok((lat, lon, t, p)) => if !(p < s.len() && (s[p] == 65 || s[p] == 86)) {
            Err((GllField::DataStatus, p))
        } else if !(p + 1 < s.len() && s[p + 1] == 44) {
            Err((GllField::Separator, p + 1))
        } else {
            Ok(
                GllView {
                    latitude: lat,
                    longitude: lon,
                    fix_time: t,
                    data_state: status_of(s[p] as char),
                    mode: mode_spec(s, p + 2),
                },
            )
        },
    }
}

/// Whether `r` is what `gll_spec` gives.
pub open spec fn agrees(r: Result<GllData, NmeaError>, v: Result<GllView, (GllField, int)>) -> bool {
    match (r, v) {
        (Ok(d), Ok(w)) => d@ == w && d.fix_time.wf(),
        (Err(NmeaError::ParsingError { field, position }), Err((f, p))) => field == f
            && position == p,
        _ => false,
    }
}

fn parse_error(field: GllField, position: usize) -> (r: Result<GllData, NmeaError>)
    ensures
        r == Err::<GllData, NmeaError>(NmeaError::ParsingError { field, position }),
{
    Err(NmeaError::ParsingError { field, position })
}

/// Decodes a GLL payload.
fn do_parse_gll(s: &[u8]) -> (r: Result<GllData, NmeaError>)
    ensures
        agrees(r, gll_spec(s@)),
{
    let (latitude, e) = match parse_coordinate(s, 0, 2, 78, 83) {
        Some(x) => x,
        None => return parse_error(GllField::Position, 0),
    };
    if !(e < s.len() && s[e] == 44) {
        return parse_error(GllField::Position, 0);
    }
    let (longitude, p) = match parse_coordinate(s, e + 1, 3, 69, 87) {
        Some(x) => x,
        None => return parse_error(GllField::Position, 0),
    };
    if !(p < s.len() && s[p] == 44) {
        return parse_error(GllField::Separator, p);
    }
    let (fix_time, q) = match parse_time(s, p + 1) {
        Some(x) => x,
        None => return parse_error(GllField::FixTime, p + 1),
    };
    // the rest of the time field is not read
    let c = find_byte(s, q, 44);
    if c >= s.len() {
        return parse_error(GllField::Separator, q);
    }
    let st = c + 1;
    if !(st < s.len() && (s[st] == 65 || s[st] == 86)) {
        return parse_error(GllField::DataStatus, st);
    }
    let data_state = GLLDataStatus::from(s[st] as char);
    if !(st + 1 < s.len() && s[st + 1] == 44) {
        return parse_error(GllField::Separator, st + 1);
    }
    let mode = if st + 2 < s.len() && (s[st + 2] == 65 || s[st + 2] == 68 || s[st + 2] == 69
        || s[st + 2] == 77) {
        Some(PosSystemIndicator::from(s[st + 2] as char))
    } else {
        None
    };
    Ok(GllData { latitude, longitude, fix_time, data_state, mode })
}

/// Decodes a GLL sentence. A sentence of another type is refused before its
/// payload is read; a payload that breaks the grammar gives the field at
/// which decoding stopped.
pub fn parse_gll(sentence: NmeaSentence) -> (r: Result<GllData, NmeaError>)
    ensures
        sentence.message_id@ != gll_id() ==> match r {
            Err(NmeaError::WrongSentenceHeader { expected, found }) => expected@ == gll_id()
                && found@ == sentence.message_id@,
            _ => false,
        },
        sentence.message_id@ == gll_id() ==> agrees(r, gll_spec(sentence.data@)),
{
    let id = sentence.message_id;
    if !(id.len() == 3 && id[0] == 71 && id[1] == 76 && id[2] == 76) {
        proof {
            if id@.len() == 3 {
                assert(id@ != gll_id() || (id[0] == 71 && id[1] == 76 && id[2] == 76));
            }
        }
        Err(
            NmeaError::WrongSentenceHeader {
                expected: vec![71u8, 76u8, 76u8],
                found: slice_to_vec(id),
            },
        )
    } else {
        proof {
            assert(id@ =~= gll_id());
        }
        do_parse_gll(sentence.data)
    }
}

} // verus!
