//! Verified core of a concurrent TCP port scanner.
//!
//! The library holds the logic that decides what a scan does: parsing the
//! command line into a validated configuration, dealing the port range out
//! to the workers by stride, and turning the ports the workers discovered
//! into the final sorted report.  The process edge — TCP connects, threads,
//! the result channel and printing — lives outside the library and only
//! hands plain values in and out.

pub mod args;
pub mod render;
pub mod report;
pub mod scan;
