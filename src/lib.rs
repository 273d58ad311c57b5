//! Codec for the tagged binary property-archive format and its structured-text form.
//!
//! - `model`, `tags`, `error`: the value tree, the kinds' wire bytes and names, the errors.
//! - `hashes`, `numeral`: the name and link hashes, and how hash tokens of the text form read.
//! - `bin_format`: the wire format as spec functions; `bin_write` and `bin_read` are proved
//!   against it.
//! - `text`, `text_write`, `text_read`, `pretty`: the text tree, the conversions to and from it,
//!   and its indented printing.
//! - `round_trip`, `determinism`, `text_round_trip`: the laws that tie the directions together.

pub mod error;
pub mod hashes;
pub mod model;
pub mod tags;
pub mod bin_format;
pub mod bin_write;
pub mod bin_read;
pub mod numeral;
pub mod text;
pub mod text_write;
pub mod text_read;
pub mod pretty;
pub mod round_trip;
pub mod text_round_trip;
pub mod determinism;
