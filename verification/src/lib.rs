//! Core of a concurrent TCP port scanner.
//!
//! The library contains the pure, verified part of the scanner: partitioning
//! the port range `1..=65535` across a bounded pool of workers by a strided
//! assignment, validating the scan configuration, and turning the unordered
//! stream of reported-open ports into the final ascending report.  The
//! network probes themselves, the worker threads and the result channel are
//! plain I/O and live outside the library; they consume and produce the plain
//! values that these modules specify.

pub mod config;
pub mod partition;
pub mod report;
pub mod scan;

use vstd::prelude::*;

verus! {

/// Highest TCP port number; the scan covers `1..=MAX_PORT_NO`.
pub const MAX_PORT_NO: u16 = 65535;

/// Largest worker pool the scanner supports.
pub const MAX_SUPPORTED_THREADS_NO: u16 = 1024;

/// Worker pool size used when the operator does not choose one.
pub const DEFAULT_THREADS_NO: u16 = 1024;

} // verus!
