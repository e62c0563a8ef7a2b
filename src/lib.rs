//! Spreadsheet and CSV tables normalised into ordered JSON-shaped records.
pub mod double;
pub mod epoch;
pub mod value;
pub mod infer;
pub mod record;
pub mod table;
pub mod source;
