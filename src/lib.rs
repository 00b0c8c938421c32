//! Decoding of the GLL ("geographic position") sentence of NMEA 0183.
//!
//! The payload of a sentence is decoded by [`parse_gll`] into a [`GllData`]
//! record. Coordinates are kept as exact decimal values, so that what was
//! written on the wire can be related to what was decoded without rounding.
mod digits;
mod fields;
mod gll;
mod laws;

pub use digits::{all_digits, digit_run_end, digits_value, first_at_or_after, is_digit, pow10};

pub use fields::{
    coordinate_spec, decimal_text_value, denominator, numerator, parse_coordinate, parse_time,
    time_spec, Coordinate, CoordinateView, TimeOfDay, TimeView,
};
pub use gll::{
    agrees, gll_id, gll_spec, head_spec, indicator_of, is_mode_letter, lat_lon_spec, mode_spec,
    parse_gll, status_of, GLLDataStatus, GllData, GllField, GllView, NmeaError, NmeaSentence,
    PosSystemIndicator,
};
pub use laws::{
    lat_hemisphere_at, lemma_degrees_minutes, lemma_hemisphere_sign, lemma_mode_letter,
    lemma_status_letter, lon_hemisphere_at, minutes_text, status_at, written_value,
};
