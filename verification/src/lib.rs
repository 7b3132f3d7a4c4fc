//! Scanning, indexing and reduction of batches of text-encoded frames
//! from a replicated-operation log.

pub mod scan;
pub mod ident;
pub mod frame;
pub mod batch;
pub mod reduce;

pub use scan::{scan_for_float, scan_for_integer, scan_for_string};
