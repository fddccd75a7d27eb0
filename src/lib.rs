//! A typed value for the `x-real-ip` HTTP header: an IP address that can be
//! parsed from text, rendered back to its canonical form, and decoded from
//! raw header field values.

mod text;

pub mod address;
pub mod format;
pub mod parse;
pub mod header;
pub mod round_trip;
