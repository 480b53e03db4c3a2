//! A daily journal: timestamped, tagged entries appended to one text file per
//! calendar day, and partial-precision date filters for reading them back.
pub mod config;
pub mod entry;
pub mod error;
pub mod logbook;
pub mod offset;
pub mod text;
