//! A verified core for a single-user weight-logging web service.
//!
//! The library holds everything the service decides or computes: the
//! append-only log of (date, weight) records and its line format, the
//! request-line parser and router, the HTTP response builder, and the
//! construction of the chart-rendering script.  Weights are modelled as
//! fixed-point numbers counted in tenths of a unit, so every formula is
//! stated over plain integers and byte sequences.  The surrounding binary
//! performs the file, network and subprocess work and hands the library
//! plain values.

pub mod bytes;
pub mod chart;
pub mod clock;
pub mod date;
pub mod decimal;
pub mod handlers;
pub mod http;
pub mod log;
pub mod replace;
pub mod response;
