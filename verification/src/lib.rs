//! A personal time-tracking library: an ordered store of timed work sessions
//! tagged with a project and free-form labels, with date-range and project
//! filtering, per-project report grouping, CSV export, a JSON persistence
//! format, and an importer for a legacy tuple-array log format.

pub mod codec;
pub mod config;
pub mod csv;
pub mod entry;
pub mod errors;
pub mod ident;
pub mod importer;
pub mod text;
pub mod params;
pub mod report;
pub mod store;
pub mod time;
