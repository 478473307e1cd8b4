//! Reading and selecting laser-induced breakdown spectroscopy (LIBS) data.
//!
//! Spectra are stored as big-endian IEEE-754 single-precision numbers. The
//! library never holds a float: every number is carried as its 32-bit pattern,
//! and comparisons follow IEEE-754 ordering on those patterns.

pub mod float_order;
pub mod records;
pub mod lambda_search;
pub mod spectra;
pub mod shots;
pub mod csv_line;
