//! Derives GTFS transfer records from a set of stops: decoding stop rows from
//! a comma-separated table, generating one transfer per stop pair whose walk
//! is short enough, and encoding the result as a comma-separated table.

pub mod numbers;
pub mod stops;
pub mod transfers;
pub mod output;
