//! Discovery of development servers that listen on the local host.
//!
//! A scan goes through three steps. [`ports::PortSet`] merges the default
//! ports with the ports that the caller adds. [`scan::Scan`] keeps the books
//! while one probe per port runs: each probe ends in a
//! [`probe::ProbeOutcome`], or breaks off. [`report::LocalInfo`] is the
//! report: the host's address and the listening ports in ascending order.
//!
//! The library makes no connection itself. Whoever uses it tries the two
//! loopback addresses of each port and tells the library how the attempts
//! ended.

pub mod ports;
pub mod probe;
pub mod report;
pub mod scan;

pub use crate::report::LocalInfo;
