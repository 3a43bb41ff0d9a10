//! Per-station minimum, mean and maximum over a file of `name;temperature`
//! lines, with temperatures kept as whole tenths of a degree.

pub mod temperature;
pub mod record;
pub mod parser;
pub mod error;
pub mod map;
pub mod aggregate;
pub mod format;
pub mod chunk;
