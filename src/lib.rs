//! Democracy Index table extraction.
//!
//! Turns the wiki-markup table of per-country democracy scores into typed
//! records: one `DemocracyQualities` per country code, kept in the order in
//! which the table lists them. Scores are fixed-point values with two implied
//! decimals (`"9.39"` becomes 939).

pub mod extract;
pub mod record;
pub mod regime;
pub mod score;
pub mod text;

pub use extract::{extract, ErrorKind, ExtractError, Field};
pub use record::{Dataset, DemocracyQualities, REPORT_YEAR};
pub use regime::RegimeType;
pub use score::{decode_score, MAX_SCORE};
