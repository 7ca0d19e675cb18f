//! A frequency value type measured in whole hertz, with a parser for
//! human-readable text ("2.5GHz", "100 kHz"), a canonical formatter, unit
//! conversions and a conversion to the reciprocal period.
pub mod error;
pub mod format;
pub mod frequency;
pub mod laws;
pub mod numeral;
pub mod ops;
pub mod parse;
pub mod period;
pub mod radix;
pub mod text;

pub use error::Error;
pub use frequency::{Frequency, GIGAHERTZ, KILOHERTZ, MEGAHERTZ};
pub use parse::{parse_frequency, parse_lowered};
