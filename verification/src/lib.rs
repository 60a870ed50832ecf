//! Organizes image files into a date-based folder hierarchy derived from
//! capture-time metadata.  The library holds the verified logic: date-string
//! parsing and formatting, extension filtering, collision-free destination
//! resolution, and the bookkeeping of one organizing run; callers perform
//! the filesystem actions the engine emits.
pub mod date;
pub mod engine;
pub mod exifdata;
pub mod files;
pub mod stats;
